//! Round-trip persistence: parsing the canonical serialization of any
//! well-formed database yields that database back, byte-for-byte law.

use vstd::prelude::*;
use crate::db::ConfigV;
use crate::db::DbMapV;
use crate::db::has_name;
use crate::db::no_dup_entries;
use crate::db::wf_map;
use crate::json::{
    is_ws, is_digit, is_hex, hex_digit, hexval, simple_unesc, esc, esc_byte, qstr,
    dec, nl_ind, key_version, key_configs, key_source, key_target, ser_entry, ser_entries,
    ser_list, ser_pair, ser_pairs, ser_cfg_map, ser_db, sp_skip_ws, sp_str_body, sp_string,
    sp_digits, sp_val, sp_num, sp_entry, sp_entry_members, sp_entries, sp_list, sp_pairs,
    sp_cfg_map, sp_db, sp_db_members,
    QUOTE, BACKSLASH, LBRACE, RBRACE, LBRACKET, RBRACKET, COMMA, COLON, SPACE,
};

verus! {

/// `t` occurs in `s` starting at position `i`.
pub open spec fn at(s: Seq<u8>, i: int, t: Seq<u8>) -> bool {
    0 <= i && i + t.len() <= s.len() && s.subrange(i, i + t.len()) == t
}

proof fn lemma_at_split(s: Seq<u8>, i: int, a: Seq<u8>, b: Seq<u8>)
    requires
        at(s, i, a + b),
    ensures
        at(s, i, a),
        at(s, i + a.len(), b),
{
    assert forall|k: int| 0 <= k < a.len() implies s.subrange(i, i + a.len())[k] == a[k] by {
        assert(s.subrange(i, i + (a + b).len())[k] == s[i + k]);
        assert((a + b)[k] == a[k]);
    }
    assert(s.subrange(i, i + a.len()) =~= a);
    assert forall|t: int| 0 <= t < b.len() implies s.subrange(
        i + a.len(),
        i + a.len() + b.len(),
    )[t] == b[t] by {
        assert(s.subrange(i, i + (a + b).len())[a.len() + t] == s[i + a.len() + t]);
        assert((a + b)[a.len() + t] == b[t]);
    }
    assert(s.subrange(i + a.len(), i + a.len() + b.len()) =~= b);
}

proof fn lemma_at_char(s: Seq<u8>, i: int, t: Seq<u8>, k: int)
    requires
        at(s, i, t),
        0 <= k < t.len(),
    ensures
        s[i + k] == t[k],
{
    assert(s.subrange(i, i + t.len())[k] == s[i + k]);
}

proof fn lemma_skip_ws_run(s: Seq<u8>, i: int, j: int)
    requires
        0 <= i <= j <= s.len(),
        forall|k: int| i <= k < j ==> is_ws(#[trigger] s[k]),
        j == s.len() || !is_ws(s[j]),
    ensures
        sp_skip_ws(s, i) == j,
    decreases j - i,
{
    if i < j {
        lemma_skip_ws_run(s, i + 1, j);
    }
}

/// Shape of an indentation run: a newline then spaces, all whitespace.
proof fn lemma_nl_ind(k: nat)
    ensures
        nl_ind(k).len() == k + 1,
        forall|t: int| 0 <= t < nl_ind(k).len() ==> is_ws(#[trigger] nl_ind(k)[t]),
    decreases k,
{
    if k > 0 {
        lemma_nl_ind((k - 1) as nat);
    }
}

/// Escaping prepends the escape of the first byte.
proof fn lemma_esc_first(raw: Seq<u8>)
    requires
        raw.len() > 0,
    ensures
        esc(raw) == esc_byte(raw[0]) + esc(raw.drop_first()),
    decreases raw.len(),
{
    if raw.len() == 1 {
        assert(raw.drop_last() =~= Seq::<u8>::empty());
        assert(raw.drop_first() =~= Seq::<u8>::empty());
        assert(esc(raw) =~= esc_byte(raw[0]) + esc(raw.drop_first()));
    } else {
        let dl = raw.drop_last();
        lemma_esc_first(dl);
        assert(raw.drop_first().drop_last() =~= dl.drop_first());
        assert(raw.drop_first().last() == raw.last());
        assert(esc(raw.drop_first()) == esc(dl.drop_first()) + esc_byte(raw.last()));
        assert(esc(raw) == (esc_byte(dl[0]) + esc(dl.drop_first())) + esc_byte(raw.last()));
        assert(esc(raw) =~= esc_byte(raw[0]) + esc(raw.drop_first()));
    }
}

/// Parsing string content inverts escaping.
proof fn rt_str_body(s: Seq<u8>, i: int, raw: Seq<u8>)
    requires
        at(s, i, esc(raw) + seq![QUOTE]),
    ensures
        sp_str_body(s, i) == Some((raw, i + esc(raw).len() + 1)),
    decreases raw.len(),
{
    if raw.len() == 0 {
        assert(esc(raw) =~= Seq::<u8>::empty());
        assert((esc(raw) + seq![QUOTE])[0] == QUOTE);
        lemma_at_char(s, i, esc(raw) + seq![QUOTE], 0);
        assert(raw =~= Seq::<u8>::empty());
    } else {
        lemma_esc_first(raw);
        let b = raw[0];
        let eb = esc_byte(b);
        let rest = raw.drop_first();
        assert(esc(raw) + seq![QUOTE] =~= eb + (esc(rest) + seq![QUOTE]));
        lemma_at_split(s, i, eb, esc(rest) + seq![QUOTE]);
        rt_str_body(s, i + eb.len(), rest);
        assert(seq![b] + rest =~= raw);
        if b == QUOTE {
            lemma_at_char(s, i, eb, 0);
            lemma_at_char(s, i, eb, 1);
            assert(s[i] == BACKSLASH && s[i + 1] == QUOTE);
            assert(simple_unesc(s[i + 1]) == Some(QUOTE));
        } else if b == BACKSLASH {
            lemma_at_char(s, i, eb, 0);
            lemma_at_char(s, i, eb, 1);
            assert(s[i] == BACKSLASH && s[i + 1] == BACKSLASH);
            assert(simple_unesc(s[i + 1]) == Some(BACKSLASH));
        } else if b < 32 {
            lemma_at_char(s, i, eb, 0);
            lemma_at_char(s, i, eb, 1);
            lemma_at_char(s, i, eb, 2);
            lemma_at_char(s, i, eb, 3);
            lemma_at_char(s, i, eb, 4);
            lemma_at_char(s, i, eb, 5);
            assert(s[i] == BACKSLASH && s[i + 1] == 117 && s[i + 2] == 48 && s[i + 3] == 48);
            assert(s[i + 4] == hex_digit(b / 16) && s[i + 5] == hex_digit(b % 16));
            assert(simple_unesc(117) is None);
            assert(is_hex(hex_digit(b / 16)) && is_hex(hex_digit(b % 16)));
            assert(hexval(hex_digit(b / 16)) == b / 16);
            assert(hexval(hex_digit(b % 16)) == b % 16);
            assert((hexval(s[i + 4]) * 16 + hexval(s[i + 5])) as u8 == b);
        } else {
            lemma_at_char(s, i, eb, 0);
            assert(s[i] == b);
        }
    }
}

/// Parsing a quoted literal inverts quoting.
proof fn rt_string(s: Seq<u8>, i: int, raw: Seq<u8>)
    requires
        at(s, i, qstr(raw)),
    ensures
        sp_string(s, i) == Some((raw, i + qstr(raw).len())),
{
    assert(qstr(raw) =~= seq![QUOTE] + (esc(raw) + seq![QUOTE]));
    lemma_at_split(s, i, seq![QUOTE], esc(raw) + seq![QUOTE]);
    lemma_at_char(s, i, seq![QUOTE], 0);
    rt_str_body(s, i + 1, raw);
}

/// Decimal digits of a number are digits.
proof fn lemma_dec_digits(n: nat)
    ensures
        dec(n).len() >= 1,
        forall|t: int| 0 <= t < dec(n).len() ==> is_digit(#[trigger] dec(n)[t]),
    decreases n,
{
    if n >= 10 {
        lemma_dec_digits(n / 10);
    }
}

proof fn lemma_digits_run(s: Seq<u8>, i: int, j: int)
    requires
        0 <= i <= j <= s.len(),
        forall|k: int| i <= k < j ==> is_digit(#[trigger] s[k]),
        j == s.len() || !is_digit(s[j]),
    ensures
        sp_digits(s, i) == (s.subrange(i, j), j),
    decreases j - i,
{
    if i == j {
        assert(s.subrange(i, j) =~= Seq::<u8>::empty());
    } else {
        lemma_digits_run(s, i + 1, j);
        assert(s.subrange(i, j) =~= seq![s[i]] + s.subrange(i + 1, j));
    }
}

/// A number's decimal digits never begin with a superfluous zero.
proof fn lemma_dec_no_leading_zero(n: nat)
    requires
        n >= 1,
    ensures
        dec(n)[0] != 48,
    decreases n,
{
    if n >= 10 {
        lemma_dec_no_leading_zero(n / 10);
        lemma_dec_digits(n / 10);
        assert(dec(n)[0] == dec(n / 10)[0]);
    }
}

/// Evaluating the digits of `n` gives `n` back.
proof fn lemma_val_dec(n: u32)
    ensures
        sp_val(dec(n as nat)) == Some(n as int),
    decreases n,
{
    if n >= 10 {
        lemma_val_dec(n / 10);
        let d = dec(n as nat);
        assert(d.drop_last() =~= dec((n / 10) as nat));
        assert(d.last() == (48 + n as nat % 10) as u8);
        assert(d.len() >= 2) by {
            lemma_dec_digits((n / 10) as nat);
        }
    }
}

/// Parsing a decimal number inverts printing one.
proof fn rt_num(s: Seq<u8>, i: int, n: u32)
    requires
        at(s, i, dec(n as nat)),
        i + dec(n as nat).len() == s.len() || !is_digit(s[i + dec(n as nat).len()]),
    ensures
        sp_num(s, i) == Some((n, i + dec(n as nat).len())),
{
    let d = dec(n as nat);
    lemma_dec_digits(n as nat);
    assert forall|k: int| i <= k < i + d.len() implies is_digit(#[trigger] s[k]) by {
        lemma_at_char(s, i, d, k - i);
    }
    lemma_digits_run(s, i, i + d.len());
    assert(s.subrange(i, i + d.len()) == d);
    lemma_val_dec(n);
    if n >= 1 {
        lemma_dec_no_leading_zero(n as nat);
    }
    assert(!(d.len() >= 2 && d[0] == 48));
}

/// Skipping over one indentation run lands on the next token.
proof fn lemma_skip_ind(s: Seq<u8>, i: int, k: nat)
    requires
        at(s, i, nl_ind(k)),
        i + k + 1 == s.len() || !is_ws(s[i + k + 1]),
    ensures
        sp_skip_ws(s, i) == i + k + 1,
{
    lemma_nl_ind(k);
    assert forall|t: int| i <= t < i + k + 1 implies is_ws(#[trigger] s[t]) by {
        lemma_at_char(s, i, nl_ind(k), t - i);
    }
    lemma_skip_ws_run(s, i, i + k + 1);
}

/// An entry list's serialization begins with an opening brace.
proof fn lemma_ser_entries_head(l: Seq<ConfigV>)
    requires
        l.len() >= 1,
    ensures
        ser_entries(l).len() >= 1,
        ser_entries(l)[0] == LBRACE,
    decreases l.len(),
{
    if l.len() == 1 {
        assert(ser_entry(l[0])[0] == LBRACE);
    } else {
        lemma_ser_entries_head(l.drop_last());
    }
}

/// A member list's serialization begins with a quote.
proof fn lemma_ser_pairs_head(m: DbMapV)
    requires
        m.len() >= 1,
    ensures
        ser_pairs(m).len() >= 1,
        ser_pairs(m)[0] == QUOTE,
    decreases m.len(),
{
    if m.len() == 1 {
        assert(ser_pair(m[0])[0] == QUOTE);
    } else {
        lemma_ser_pairs_head(m.drop_last());
    }
}

/// Parsing one serialized entry object yields that entry.
#[verifier::rlimit(80)]
#[verifier::spinoff_prover]
proof fn rt_entry(s: Seq<u8>, i: int, e: ConfigV)
    requires
        at(s, i, ser_entry(e)),
    ensures
        sp_entry(s, i) == Some((e, i + ser_entry(e).len())),
{
    let t3 = qstr(key_source());
    let t5 = qstr(e.source);
    let t8 = qstr(key_target());
    let t10 = qstr(e.target);
    lemma_nl_ind(8);
    lemma_nl_ind(6);
    let p1 = i + 1;
    let p2 = p1 + 9;
    let p3 = p2 + t3.len();
    let p4 = p3 + 2;
    let p5 = p4 + t5.len();
    let p6 = p5 + 1;
    let p7 = p6 + 9;
    let p8 = p7 + t8.len();
    let p9 = p8 + 2;
    let p10 = p9 + t10.len();
    let p11 = p10 + 7;
    let a1 = seq![LBRACE] + nl_ind(8);
    let a2 = seq![COLON, SPACE];
    let a3 = seq![COMMA] + nl_ind(8);
    let a4 = nl_ind(6) + seq![RBRACE];
    assert(ser_entry(e) =~= a1 + (t3 + (a2 + (t5 + (a3 + (t8 + (a2 + (t10 + a4))))))));
    lemma_at_split(s, i, a1, t3 + (a2 + (t5 + (a3 + (t8 + (a2 + (t10 + a4)))))));
    lemma_at_split(s, i, seq![LBRACE], nl_ind(8));
    lemma_at_split(s, p2, t3, a2 + (t5 + (a3 + (t8 + (a2 + (t10 + a4))))));
    lemma_at_split(s, p3, a2, t5 + (a3 + (t8 + (a2 + (t10 + a4)))));
    lemma_at_split(s, p4, t5, a3 + (t8 + (a2 + (t10 + a4))));
    lemma_at_split(s, p5, a3, t8 + (a2 + (t10 + a4)));
    lemma_at_split(s, p5, seq![COMMA], nl_ind(8));
    lemma_at_split(s, p7, t8, a2 + (t10 + a4));
    lemma_at_split(s, p8, a2, t10 + a4);
    lemma_at_split(s, p9, t10, a4);
    lemma_at_split(s, p10, a4, Seq::<u8>::empty());
    lemma_at_split(s, p10, nl_ind(6), seq![RBRACE]);
    lemma_at_char(s, i, seq![LBRACE], 0);
    lemma_at_char(s, p3, a2, 0);
    lemma_at_char(s, p3, a2, 1);
    lemma_at_char(s, p5, seq![COMMA], 0);
    lemma_at_char(s, p8, a2, 0);
    lemma_at_char(s, p8, a2, 1);
    lemma_at_char(s, p11, seq![RBRACE], 0);
    assert(t3[0] == QUOTE && t5[0] == QUOTE && t8[0] == QUOTE && t10[0] == QUOTE);
    lemma_at_char(s, p2, t3, 0);
    lemma_at_char(s, p4, t5, 0);
    lemma_at_char(s, p7, t8, 0);
    lemma_at_char(s, p9, t10, 0);
    lemma_skip_ind(s, p1, 8);
    rt_string(s, p2, key_source());
    lemma_skip_ws_run(s, p3, p3);
    lemma_skip_ws_run(s, p3 + 1, p4);
    rt_string(s, p4, e.source);
    lemma_skip_ws_run(s, p5, p5);
    lemma_skip_ind(s, p6, 8);
    rt_string(s, p7, key_target());
    lemma_skip_ws_run(s, p8, p8);
    lemma_skip_ws_run(s, p8 + 1, p9);
    rt_string(s, p9, e.target);
    lemma_skip_ind(s, p10, 6);
    assert(key_target() != key_source()) by {
        assert(key_target()[0] == 116);
        assert(key_source()[0] == 115);
    }
    assert(sp_entry_members(s, p7, Some(e.source), None) == Some(
        (ConfigV { source: e.source, target: e.target }, p11 + 1),
    ));
    assert(sp_entry_members(s, p2, None, None) == Some(
        (ConfigV { source: e.source, target: e.target }, p11 + 1),
    ));
    assert(sp_entry(s, i) == Some(
        (ConfigV { source: e.source, target: e.target }, p11 + 1),
    ));
    assert((ConfigV { source: e.source, target: e.target }) == e);
}

/// Front decomposition of a serialized entry list.
proof fn lemma_ser_entries_first(l: Seq<ConfigV>)
    requires
        l.len() >= 2,
    ensures
        ser_entries(l) == ser_entry(l[0]) + ((seq![COMMA] + nl_ind(6)) + ser_entries(
            l.drop_first(),
        )),
    decreases l.len(),
{
    if l.len() == 2 {
        assert(l.drop_last() =~= seq![l[0]]);
        assert(l.drop_first() =~= seq![l[1]]);
        assert(ser_entries(seq![l[0]]) == ser_entry(l[0]));
        assert(ser_entries(seq![l[1]]) == ser_entry(l[1]));
        assert(ser_entries(l) =~= ser_entry(l[0]) + ((seq![COMMA] + nl_ind(6)) + ser_entries(
            l.drop_first(),
        )));
    } else {
        let dl = l.drop_last();
        lemma_ser_entries_first(dl);
        assert(l.drop_first().drop_last() =~= dl.drop_first());
        assert(l.drop_first().last() == l.last());
        assert(l.drop_first().len() >= 2);
        assert(ser_entries(l.drop_first()) == ser_entries(dl.drop_first()) + seq![COMMA]
            + nl_ind(6) + ser_entry(l.last()));
        assert(ser_entries(l) =~= ser_entry(l[0]) + ((seq![COMMA] + nl_ind(6)) + ser_entries(
            l.drop_first(),
        )));
    }
}

/// Front decomposition of a serialized member list.
proof fn lemma_ser_pairs_first(m: DbMapV)
    requires
        m.len() >= 2,
    ensures
        ser_pairs(m) == ser_pair(m[0]) + ((seq![COMMA] + nl_ind(4)) + ser_pairs(
            m.drop_first(),
        )),
    decreases m.len(),
{
    if m.len() == 2 {
        assert(m.drop_last() =~= seq![m[0]]);
        assert(m.drop_first() =~= seq![m[1]]);
        assert(ser_pairs(seq![m[0]]) == ser_pair(m[0]));
        assert(ser_pairs(seq![m[1]]) == ser_pair(m[1]));
        assert(ser_pairs(m) =~= ser_pair(m[0]) + ((seq![COMMA] + nl_ind(4)) + ser_pairs(
            m.drop_first(),
        )));
    } else {
        let dl = m.drop_last();
        lemma_ser_pairs_first(dl);
        assert(m.drop_first().drop_last() =~= dl.drop_first());
        assert(m.drop_first().last() == m.last());
        assert(m.drop_first().len() >= 2);
        assert(ser_pairs(m.drop_first()) == ser_pairs(dl.drop_first()) + seq![COMMA] + nl_ind(
            4,
        ) + ser_pair(m.last()));
        assert(ser_pairs(m) =~= ser_pair(m[0]) + ((seq![COMMA] + nl_ind(4)) + ser_pairs(
            m.drop_first(),
        )));
    }
}

/// Parsing serialized entries up to the closing bracket yields the list.
proof fn rt_entries(s: Seq<u8>, i: int, l: Seq<ConfigV>)
    requires
        l.len() >= 1,
        no_dup_entries(l),
        at(s, i, ser_entries(l) + (nl_ind(4) + seq![RBRACKET])),
    ensures
        sp_entries(s, i) == Some((l, i + ser_entries(l).len() + nl_ind(4).len() + 1)),
    decreases l.len(),
{
    lemma_nl_ind(4);
    lemma_nl_ind(6);
    if l.len() == 1 {
        lemma_at_split(s, i, ser_entries(l), nl_ind(4) + seq![RBRACKET]);
        assert(ser_entries(l) == ser_entry(l[0]));
        rt_entry(s, i, l[0]);
        let j = i + ser_entry(l[0]).len();
        lemma_at_split(s, j, nl_ind(4), seq![RBRACKET]);
        let p = j + 5;
        lemma_at_char(s, p, seq![RBRACKET], 0);
        lemma_skip_ind(s, j, 4);
        assert(seq![l[0]] =~= l);
    } else {
        lemma_ser_entries_first(l);
        let rest = l.drop_first();
        let c = seq![COMMA] + nl_ind(6);
        let tail = nl_ind(4) + seq![RBRACKET];
        assert(ser_entries(l) + tail =~= ser_entry(l[0]) + (c + (ser_entries(rest) + tail)));
        lemma_at_split(s, i, ser_entry(l[0]), c + (ser_entries(rest) + tail));
        rt_entry(s, i, l[0]);
        let j = i + ser_entry(l[0]).len();
        lemma_at_split(s, j, c, ser_entries(rest) + tail);
        lemma_at_split(s, j, seq![COMMA], nl_ind(6));
        lemma_at_char(s, j, seq![COMMA], 0);
        lemma_skip_ws_run(s, j, j);
        let k2 = j + 8;
        lemma_ser_entries_head(rest);
        lemma_at_char(s, k2, ser_entries(rest) + tail, 0);
        assert((ser_entries(rest) + tail)[0] == LBRACE);
        lemma_skip_ind(s, j + 1, 6);
        assert(no_dup_entries(rest)) by {
            assert(forall|a: int, b: int| 0 <= a < b < rest.len() ==> rest[a] == l[a + 1]
                && rest[b] == l[b + 1]);
        }
        rt_entries(s, k2, rest);
        assert(!rest.contains(l[0])) by {
            if rest.contains(l[0]) {
                let w = choose|w: int| 0 <= w < rest.len() && rest[w] == l[0];
                assert(l[w + 1] == l[0]);
            }
        }
        assert(seq![l[0]] + rest =~= l);
    }
}

/// Parsing a serialized list yields the list.
proof fn rt_list(s: Seq<u8>, i: int, l: Seq<ConfigV>)
    requires
        no_dup_entries(l),
        at(s, i, ser_list(l)),
    ensures
        sp_list(s, i) == Some((l, i + ser_list(l).len())),
{
    if l.len() == 0 {
        lemma_at_char(s, i, ser_list(l), 0);
        lemma_at_char(s, i, ser_list(l), 1);
        lemma_skip_ws_run(s, i + 1, i + 1);
        assert(l =~= Seq::<ConfigV>::empty());
    } else {
        lemma_nl_ind(6);
        let body = ser_entries(l) + (nl_ind(4) + seq![RBRACKET]);
        assert(ser_list(l) =~= (seq![LBRACKET] + nl_ind(6)) + body);
        lemma_at_split(s, i, seq![LBRACKET] + nl_ind(6), body);
        lemma_at_split(s, i, seq![LBRACKET], nl_ind(6));
        lemma_at_char(s, i, seq![LBRACKET], 0);
        let k = i + 8;
        lemma_ser_entries_head(l);
        lemma_at_char(s, k, body, 0);
        assert(body[0] == LBRACE);
        lemma_skip_ind(s, i + 1, 6);
        rt_entries(s, k, l);
    }
}

/// Parsing one serialized member reads its name, its list, and lands on
/// whatever follows.
#[verifier::rlimit(60)]
proof fn rt_pair(s: Seq<u8>, i: int, p: (Seq<u8>, Seq<ConfigV>), suffix: Seq<u8>)
    requires
        no_dup_entries(p.1),
        at(s, i, ser_pair(p) + suffix),
    ensures
        ({
            let j1 = i + qstr(p.0).len();
            let k2 = j1 + 2;
            let j2 = i + ser_pair(p).len();
            &&& sp_string(s, i) == Some((p.0, j1))
            &&& sp_skip_ws(s, j1) == j1
            &&& 0 <= j1 < s.len() && s[j1] == COLON
            &&& sp_skip_ws(s, j1 + 1) == k2
            &&& sp_list(s, k2) == Some((p.1, j2))
            &&& at(s, j2, suffix)
        }),
{
    let a2 = seq![COLON, SPACE];
    assert(ser_pair(p) + suffix =~= qstr(p.0) + (a2 + (ser_list(p.1) + suffix)));
    lemma_at_split(s, i, qstr(p.0), a2 + (ser_list(p.1) + suffix));
    rt_string(s, i, p.0);
    let j1 = i + qstr(p.0).len();
    lemma_at_split(s, j1, a2, ser_list(p.1) + suffix);
    lemma_at_char(s, j1, a2, 0);
    lemma_at_char(s, j1, a2, 1);
    lemma_skip_ws_run(s, j1, j1);
    let k2 = j1 + 2;
    lemma_at_split(s, k2, ser_list(p.1), suffix);
    lemma_at_char(s, k2, ser_list(p.1), 0);
    assert(ser_list(p.1)[0] == LBRACKET);
    lemma_skip_ws_run(s, j1 + 1, k2);
    rt_list(s, k2, p.1);
}

/// Parsing serialized members up to the closing brace yields the mapping.
#[verifier::rlimit(100)]
proof fn rt_pairs(s: Seq<u8>, i: int, m: DbMapV)
    requires
        m.len() >= 1,
        wf_map(m),
        at(s, i, ser_pairs(m) + (nl_ind(2) + seq![RBRACE])),
    ensures
        sp_pairs(s, i) == Some((m, i + ser_pairs(m).len() + nl_ind(2).len() + 1)),
    decreases m.len(),
{
    lemma_nl_ind(2);
    lemma_nl_ind(4);
    let name = m[0].0;
    let l = m[0].1;
    let tail = nl_ind(2) + seq![RBRACE];
    assert(no_dup_entries(l));
    if m.len() == 1 {
        assert(ser_pairs(m) == ser_pair(m[0]));
        assert(ser_pairs(m) + tail =~= ser_pair(m[0]) + tail);
        rt_pair(s, i, m[0], tail);
        let j2 = i + ser_pair(m[0]).len();
        lemma_at_split(s, j2, nl_ind(2), seq![RBRACE]);
        lemma_at_char(s, j2 + 3, seq![RBRACE], 0);
        lemma_skip_ind(s, j2, 2);
        assert(seq![(name, l)] =~= m);
    } else {
        lemma_ser_pairs_first(m);
        let rest = m.drop_first();
        let c = seq![COMMA] + nl_ind(4);
        assert(ser_pairs(m) + tail =~= ser_pair(m[0]) + (c + (ser_pairs(rest) + tail)));
        rt_pair(s, i, m[0], c + (ser_pairs(rest) + tail));
        let j2 = i + ser_pair(m[0]).len();
        lemma_at_split(s, j2, c, ser_pairs(rest) + tail);
        lemma_at_split(s, j2, seq![COMMA], nl_ind(4));
        lemma_at_char(s, j2, seq![COMMA], 0);
        lemma_skip_ws_run(s, j2, j2);
        let k4 = j2 + 6;
        lemma_ser_pairs_head(rest);
        lemma_at_char(s, k4, ser_pairs(rest) + tail, 0);
        assert((ser_pairs(rest) + tail)[0] == QUOTE);
        lemma_skip_ind(s, j2 + 1, 4);
        assert(wf_map(rest)) by {
            assert(forall|a: int| 0 <= a < rest.len() ==> rest[a] == m[a + 1]);
        }
        rt_pairs(s, k4, rest);
        assert(!has_name(rest, name)) by {
            if has_name(rest, name) {
                let w = choose|w: int| 0 <= w < rest.len() && rest[w].0 == name;
                assert(m[w + 1].0 == m[0].0);
            }
        }
        assert(seq![(name, l)] + rest =~= m);
    }
}

/// Parsing a serialized configs object yields the mapping.
#[verifier::rlimit(50)]
proof fn rt_cfg_map(s: Seq<u8>, i: int, m: DbMapV)
    requires
        wf_map(m),
        at(s, i, ser_cfg_map(m)),
    ensures
        sp_cfg_map(s, i) == Some((m, i + ser_cfg_map(m).len())),
{
    lemma_at_char(s, i, ser_cfg_map(m), 0);
    assert(ser_cfg_map(m)[0] == LBRACE);
    if m.len() == 0 {
        lemma_at_char(s, i, ser_cfg_map(m), 1);
        lemma_skip_ws_run(s, i + 1, i + 1);
        assert(sp_cfg_map(s, i) == Some((Seq::<(Seq<u8>, Seq<ConfigV>)>::empty(), i + 2)));
        assert(m =~= Seq::<(Seq<u8>, Seq<ConfigV>)>::empty());
    } else {
        lemma_nl_ind(4);
        lemma_nl_ind(2);
        let body = ser_pairs(m) + (nl_ind(2) + seq![RBRACE]);
        assert(ser_cfg_map(m) =~= (seq![LBRACE] + nl_ind(4)) + body);
        lemma_at_split(s, i, seq![LBRACE] + nl_ind(4), body);
        lemma_at_split(s, i, seq![LBRACE], nl_ind(4));
        let k = i + 6;
        lemma_ser_pairs_head(m);
        lemma_at_char(s, k, body, 0);
        assert(body[0] == QUOTE);
        lemma_skip_ind(s, i + 1, 4);
        rt_pairs(s, k, m);
    }
}

/// Where each piece of a serialized database document stands.
#[verifier::rlimit(100)]
proof fn lemma_ser_db_layout(version: u32, m: DbMapV)
    ensures
        ({
            let s = ser_db(version, m);
            let p2 = 4int;
            let p3 = p2 + qstr(key_version()).len();
            let p4 = p3 + 2;
            let p5 = p4 + dec(version as nat).len();
            let p7 = p5 + 4;
            let p8 = p7 + qstr(key_configs()).len();
            let p9 = p8 + 2;
            let p10 = p9 + ser_cfg_map(m).len();
            let p11 = p10 + 1;
            &&& at(s, 0, seq![LBRACE])
            &&& at(s, 1, nl_ind(2))
            &&& at(s, p2, qstr(key_version()))
            &&& at(s, p3, seq![COLON, SPACE])
            &&& at(s, p4, dec(version as nat))
            &&& at(s, p5, seq![COMMA])
            &&& at(s, p5 + 1, nl_ind(2))
            &&& at(s, p7, qstr(key_configs()))
            &&& at(s, p8, seq![COLON, SPACE])
            &&& at(s, p9, ser_cfg_map(m))
            &&& at(s, p10, nl_ind(0))
            &&& at(s, p11, seq![RBRACE])
            &&& p11 + 1 == s.len()
        }),
{
    let s = ser_db(version, m);
    assert(s.subrange(0, s.len() as int) =~= s);
    assert(at(s, 0, s));
    lemma_nl_ind(2);
    lemma_nl_ind(0);
    let t3 = qstr(key_version());
    let t5 = dec(version as nat);
    let t8 = qstr(key_configs());
    let t10 = ser_cfg_map(m);
    let a1 = seq![LBRACE] + nl_ind(2);
    let a2 = seq![COLON, SPACE];
    let a3 = seq![COMMA] + nl_ind(2);
    let a4 = nl_ind(0) + seq![RBRACE];
    let p2: int = a1.len() as int;
    let p3: int = p2 + t3.len();
    let p4: int = p3 + 2;
    let p5: int = p4 + t5.len();
    let p7: int = p5 + a3.len();
    let p8: int = p7 + t8.len();
    let p9: int = p8 + 2;
    let p10: int = p9 + t10.len();
    assert(s =~= a1 + (t3 + (a2 + (t5 + (a3 + (t8 + (a2 + (t10 + a4))))))));
    lemma_at_split(s, 0, a1, t3 + (a2 + (t5 + (a3 + (t8 + (a2 + (t10 + a4)))))));
    lemma_at_split(s, 0, seq![LBRACE], nl_ind(2));
    lemma_at_split(s, p2, t3, a2 + (t5 + (a3 + (t8 + (a2 + (t10 + a4))))));
    lemma_at_split(s, p3, a2, t5 + (a3 + (t8 + (a2 + (t10 + a4)))));
    lemma_at_split(s, p4, t5, a3 + (t8 + (a2 + (t10 + a4))));
    lemma_at_split(s, p5, a3, t8 + (a2 + (t10 + a4)));
    lemma_at_split(s, p5, seq![COMMA], nl_ind(2));
    lemma_at_split(s, p7, t8, a2 + (t10 + a4));
    lemma_at_split(s, p8, a2, t10 + a4);
    lemma_at_split(s, p9, t10, a4);
    lemma_at_split(s, p10, a4, Seq::<u8>::empty());
    lemma_at_split(s, p10, nl_ind(0), seq![RBRACE]);
}

/// Token-level reading of a document laid out like a serialized database:
/// each skip lands where the layout says, and each field parses to its
/// serialized value.
#[verifier::rlimit(100)]
#[verifier::spinoff_prover]
proof fn rt_db_tokens(s: Seq<u8>, version: u32, m: DbMapV)
    requires
        wf_map(m),
        ({
            let p2 = 4int;
            let p3 = p2 + qstr(key_version()).len();
            let p4 = p3 + 2;
            let p5 = p4 + dec(version as nat).len();
            let p7 = p5 + 4;
            let p8 = p7 + qstr(key_configs()).len();
            let p9 = p8 + 2;
            let p10 = p9 + ser_cfg_map(m).len();
            let p11 = p10 + 1;
            &&& at(s, 0, seq![LBRACE])
            &&& at(s, 1, nl_ind(2))
            &&& at(s, p2, qstr(key_version()))
            &&& at(s, p3, seq![COLON, SPACE])
            &&& at(s, p4, dec(version as nat))
            &&& at(s, p5, seq![COMMA])
            &&& at(s, p5 + 1, nl_ind(2))
            &&& at(s, p7, qstr(key_configs()))
            &&& at(s, p8, seq![COLON, SPACE])
            &&& at(s, p9, ser_cfg_map(m))
            &&& at(s, p10, nl_ind(0))
            &&& at(s, p11, seq![RBRACE])
            &&& p11 + 1 == s.len()
        }),
    ensures
        ({
            let p2 = 4int;
            let p3 = p2 + qstr(key_version()).len();
            let p4 = p3 + 2;
            let p5 = p4 + dec(version as nat).len();
            let p7 = p5 + 4;
            let p8 = p7 + qstr(key_configs()).len();
            let p9 = p8 + 2;
            let p10 = p9 + ser_cfg_map(m).len();
            let p11 = p10 + 1;
            &&& sp_skip_ws(s, 0) == 0
            &&& s[0] == LBRACE
            &&& sp_skip_ws(s, 1) == p2
            &&& sp_string(s, p2) == Some((key_version(), p3))
            &&& sp_skip_ws(s, p3) == p3
            &&& s[p3] == COLON
            &&& sp_skip_ws(s, p3 + 1) == p4
            &&& sp_num(s, p4) == Some((version, p5))
            &&& sp_skip_ws(s, p5) == p5
            &&& s[p5] == COMMA
            &&& sp_skip_ws(s, p5 + 1) == p7
            &&& sp_string(s, p7) == Some((key_configs(), p8))
            &&& sp_skip_ws(s, p8) == p8
            &&& s[p8] == COLON
            &&& sp_skip_ws(s, p8 + 1) == p9
            &&& sp_cfg_map(s, p9) == Some((m, p10))
            &&& sp_skip_ws(s, p10) == p11
            &&& s[p11] == RBRACE
            &&& sp_skip_ws(s, p11 + 1) == p11 + 1
            &&& p11 + 1 == s.len()
        }),
{
    lemma_nl_ind(2);
    lemma_nl_ind(0);
    let t3 = qstr(key_version());
    let t5 = dec(version as nat);
    let t8 = qstr(key_configs());
    let t10 = ser_cfg_map(m);
    let a2 = seq![COLON, SPACE];
    let p2 = 4int;
    let p3: int = p2 + t3.len();
    let p4: int = p3 + 2;
    let p5: int = p4 + t5.len();
    let p7: int = p5 + 4;
    let p8: int = p7 + t8.len();
    let p9: int = p8 + 2;
    let p10: int = p9 + t10.len();
    let p11: int = p10 + 1;
    lemma_at_char(s, 0, seq![LBRACE], 0);
    lemma_at_char(s, p3, a2, 0);
    lemma_at_char(s, p3, a2, 1);
    lemma_at_char(s, p5, seq![COMMA], 0);
    lemma_at_char(s, p8, a2, 0);
    lemma_at_char(s, p8, a2, 1);
    lemma_at_char(s, p11, seq![RBRACE], 0);
    assert(t3[0] == QUOTE && t8[0] == QUOTE);
    lemma_at_char(s, p2, t3, 0);
    lemma_at_char(s, p7, t8, 0);
    lemma_dec_digits(version as nat);
    lemma_at_char(s, p4, t5, 0);
    assert(is_digit(s[p4]) && !is_ws(s[p4]));
    lemma_skip_ws_run(s, 0, 0);
    lemma_skip_ind(s, 1, 2);
    rt_string(s, p2, key_version());
    lemma_skip_ws_run(s, p3, p3);
    lemma_skip_ws_run(s, p3 + 1, p4);
    rt_num(s, p4, version);
    lemma_skip_ws_run(s, p5, p5);
    lemma_skip_ind(s, p5 + 1, 2);
    rt_string(s, p7, key_configs());
    lemma_skip_ws_run(s, p8, p8);
    lemma_at_char(s, p9, t10, 0);
    assert(t10[0] == LBRACE) by {
        if m.len() >= 1 {
            lemma_ser_pairs_head(m);
        }
    }
    lemma_skip_ws_run(s, p8 + 1, p9);
    rt_cfg_map(s, p9, m);
    assert(sp_cfg_map(s, p9) == Some((m, p10)));
    lemma_skip_ind(s, p10, 0);
    lemma_skip_ws_run(s, p11 + 1, p11 + 1);
}

/// A document laid out like a serialized database parses to that database.
#[verifier::rlimit(100)]
#[verifier::spinoff_prover]
proof fn rt_db_from_layout(s: Seq<u8>, version: u32, m: DbMapV)
    requires
        wf_map(m),
        ({
            let p2 = 4int;
            let p3 = p2 + qstr(key_version()).len();
            let p4 = p3 + 2;
            let p5 = p4 + dec(version as nat).len();
            let p7 = p5 + 4;
            let p8 = p7 + qstr(key_configs()).len();
            let p9 = p8 + 2;
            let p10 = p9 + ser_cfg_map(m).len();
            let p11 = p10 + 1;
            &&& at(s, 0, seq![LBRACE])
            &&& at(s, 1, nl_ind(2))
            &&& at(s, p2, qstr(key_version()))
            &&& at(s, p3, seq![COLON, SPACE])
            &&& at(s, p4, dec(version as nat))
            &&& at(s, p5, seq![COMMA])
            &&& at(s, p5 + 1, nl_ind(2))
            &&& at(s, p7, qstr(key_configs()))
            &&& at(s, p8, seq![COLON, SPACE])
            &&& at(s, p9, ser_cfg_map(m))
            &&& at(s, p10, nl_ind(0))
            &&& at(s, p11, seq![RBRACE])
            &&& p11 + 1 == s.len()
        }),
    ensures
        sp_db(s) == Some((version, m)),
{
    rt_db_tokens(s, version, m);
    let p2 = 4int;
    let p3: int = p2 + qstr(key_version()).len();
    let p4: int = p3 + 2;
    let p5: int = p4 + dec(version as nat).len();
    let p7: int = p5 + 4;
    let p8: int = p7 + qstr(key_configs()).len();
    let p9: int = p8 + 2;
    let p10: int = p9 + ser_cfg_map(m).len();
    let p11: int = p10 + 1;
    assert(key_configs() != key_version()) by {
        assert(key_configs()[0] == 99);
        assert(key_version()[0] == 118);
    }
    assert(sp_db_members(s, p7, Some(version), None) == Some(((version, m), p11 + 1)));
    assert(sp_db_members(s, p2, None, None) == Some(((version, m), p11 + 1)));
    assert(sp_db(s) == Some((version, m)));
}

/// Round-trip persistence: the canonical serialization of any well-formed
/// database parses back to exactly that database, version included.
pub proof fn lemma_round_trip(version: u32, m: DbMapV)
    requires
        wf_map(m),
    ensures
        sp_db(ser_db(version, m)) == Some((version, m)),
{
    lemma_ser_db_layout(version, m);
    rt_db_from_layout(ser_db(version, m), version, m);
}

} // verus!
