//! The database's persistence format: a pretty-printed JSON document
//!
//! ```text
//! {
//!   "version": 0,
//!   "configs": {
//!     "<name>": [
//!       {
//!         "source": "<path>",
//!         "target": "<path>"
//!       }
//!     ]
//!   }
//! }
//! ```
//!
//! The canonical form a database serializes to is pinned down byte for byte
//! by `ser_db`; the reader is pinned down by the `sp_*` parsing functions,
//! which tolerate arbitrary whitespace between tokens and the standard JSON
//! string escapes.

use vstd::prelude::*;
use crate::db::Config;
use crate::db::ConfigV;
use crate::db::ConfigsDB;
use crate::db::DbMapV;
use crate::db::parts_view;
use crate::db::views_of;

verus! {

pub const QUOTE: u8 = 34;

pub const BACKSLASH: u8 = 92;

pub const LBRACE: u8 = 123;

pub const RBRACE: u8 = 125;

pub const LBRACKET: u8 = 91;

pub const RBRACKET: u8 = 93;

pub const COMMA: u8 = 44;

pub const COLON: u8 = 58;

pub const SPACE: u8 = 32;

pub const NEWLINE: u8 = 10;

/// The characters the reader treats as insignificant whitespace.
pub open spec fn is_ws(b: u8) -> bool {
    b == 32 || b == 9 || b == 10 || b == 13
}

/// Decimal digit?
pub open spec fn is_digit(b: u8) -> bool {
    48 <= b <= 57
}

/// Lowercase hex digit for a value below sixteen.
pub open spec fn hex_digit(n: u8) -> u8 {
    if n < 10 {
        (48 + n) as u8
    } else {
        (87 + n) as u8
    }
}

/// Escape one byte of string content.
pub open spec fn esc_byte(b: u8) -> Seq<u8> {
    if b == QUOTE {
        seq![BACKSLASH, QUOTE]
    } else if b == BACKSLASH {
        seq![BACKSLASH, BACKSLASH]
    } else if b < 32 {
        seq![BACKSLASH, 117u8, 48u8, 48u8, hex_digit(b / 16), hex_digit(b % 16)]
    } else {
        seq![b]
    }
}

/// Escape a whole string body.
pub open spec fn esc(s: Seq<u8>) -> Seq<u8>
    decreases s.len(),
{
    if s.len() == 0 {
        Seq::empty()
    } else {
        esc(s.drop_last()) + esc_byte(s.last())
    }
}

/// A quoted, escaped JSON string literal.
pub open spec fn qstr(s: Seq<u8>) -> Seq<u8> {
    seq![QUOTE] + esc(s) + seq![QUOTE]
}

/// Decimal digits of `n`, most significant first.
pub open spec fn dec(n: nat) -> Seq<u8>
    decreases n,
{
    if n < 10 {
        seq![(48 + n) as u8]
    } else {
        dec(n / 10).push((48 + n % 10) as u8)
    }
}

/// The two key names of an entry object and the two top-level keys.
pub open spec fn key_version() -> Seq<u8> {
    seq![118u8, 101u8, 114u8, 115u8, 105u8, 111u8, 110u8]
}

pub open spec fn key_configs() -> Seq<u8> {
    seq![99u8, 111u8, 110u8, 102u8, 105u8, 103u8, 115u8]
}

pub open spec fn key_source() -> Seq<u8> {
    seq![115u8, 111u8, 117u8, 114u8, 99u8, 101u8]
}

pub open spec fn key_target() -> Seq<u8> {
    seq![116u8, 97u8, 114u8, 103u8, 101u8, 116u8]
}

/// A line break followed by `k` spaces of indentation.
pub open spec fn nl_ind(k: nat) -> Seq<u8>
    decreases k,
{
    if k == 0 {
        seq![NEWLINE]
    } else {
        nl_ind((k - 1) as nat).push(SPACE)
    }
}

/// One serialized entry object, indented for nesting depth three.
pub open spec fn ser_entry(e: ConfigV) -> Seq<u8> {
    seq![LBRACE] + nl_ind(8) + qstr(key_source()) + seq![COLON, SPACE] + qstr(e.source)
        + seq![COMMA] + nl_ind(8) + qstr(key_target()) + seq![COLON, SPACE] + qstr(e.target)
        + nl_ind(6) + seq![RBRACE]
}

/// Entry objects joined by commas at depth three.
pub open spec fn ser_entries(l: Seq<ConfigV>) -> Seq<u8>
    decreases l.len(),
{
    if l.len() <= 1 {
        if l.len() == 0 {
            Seq::empty()
        } else {
            ser_entry(l[0])
        }
    } else {
        ser_entries(l.drop_last()) + seq![COMMA] + nl_ind(6) + ser_entry(l.last())
    }
}

/// A name's entry list.
pub open spec fn ser_list(l: Seq<ConfigV>) -> Seq<u8> {
    if l.len() == 0 {
        seq![LBRACKET, RBRACKET]
    } else {
        seq![LBRACKET] + nl_ind(6) + ser_entries(l) + nl_ind(4) + seq![RBRACKET]
    }
}

/// One (name, entry list) member of the configs object.
pub open spec fn ser_pair(p: (Seq<u8>, Seq<ConfigV>)) -> Seq<u8> {
    qstr(p.0) + seq![COLON, SPACE] + ser_list(p.1)
}

/// Members joined by commas at depth two.
pub open spec fn ser_pairs(m: DbMapV) -> Seq<u8>
    decreases m.len(),
{
    if m.len() <= 1 {
        if m.len() == 0 {
            Seq::empty()
        } else {
            ser_pair(m[0])
        }
    } else {
        ser_pairs(m.drop_last()) + seq![COMMA] + nl_ind(4) + ser_pair(m.last())
    }
}

/// The configs object.
pub open spec fn ser_cfg_map(m: DbMapV) -> Seq<u8> {
    if m.len() == 0 {
        seq![LBRACE, RBRACE]
    } else {
        seq![LBRACE] + nl_ind(4) + ser_pairs(m) + nl_ind(2) + seq![RBRACE]
    }
}

/// The canonical serialization of a whole database.
pub open spec fn ser_db(version: u32, m: DbMapV) -> Seq<u8> {
    seq![LBRACE] + nl_ind(2) + qstr(key_version()) + seq![COLON, SPACE] + dec(version as nat)
        + seq![COMMA] + nl_ind(2) + qstr(key_configs()) + seq![COLON, SPACE] + ser_cfg_map(m)
        + nl_ind(0) + seq![RBRACE]
}

/// First position at or after `i` holding no whitespace.
pub open spec fn sp_skip_ws(s: Seq<u8>, i: int) -> int
    decreases s.len() - i,
{
    if 0 <= i < s.len() && is_ws(s[i]) {
        sp_skip_ws(s, i + 1)
    } else {
        i
    }
}

/// The byte a single-character escape stands for, if the character is one.
pub open spec fn simple_unesc(e: u8) -> Option<u8> {
    if e == QUOTE {
        Some(QUOTE)
    } else if e == BACKSLASH {
        Some(BACKSLASH)
    } else if e == 47 {
        Some(47u8)
    } else if e == 98 {
        Some(8u8)
    } else if e == 116 {
        Some(9u8)
    } else if e == 110 {
        Some(10u8)
    } else if e == 102 {
        Some(12u8)
    } else if e == 114 {
        Some(13u8)
    } else {
        None
    }
}

/// Hexadecimal digit, either case.
pub open spec fn is_hex(b: u8) -> bool {
    is_digit(b) || (97 <= b <= 102) || (65 <= b <= 70)
}

/// Value of a hexadecimal digit.
pub open spec fn hexval(b: u8) -> u8 {
    if is_digit(b) {
        (b - 48) as u8
    } else if 97 <= b <= 102 {
        (b - 87) as u8
    } else {
        (b - 55) as u8
    }
}

/// Value of four hexadecimal digits.
pub open spec fn hex4val(a: u8, b: u8, c: u8, d: u8) -> nat {
    (hexval(a) * 4096 + hexval(b) * 256 + hexval(c) * 16 + hexval(d)) as nat
}

/// The UTF-8 encoding of a code point below 0x10000.
pub open spec fn utf8_of(cp: nat) -> Seq<u8> {
    if cp < 0x80 {
        seq![cp as u8]
    } else if cp < 0x800 {
        seq![(192 + cp / 64) as u8, (128 + cp % 64) as u8]
    } else {
        seq![(224 + cp / 4096) as u8, (128 + (cp / 64) % 64) as u8, (128 + cp % 64) as u8]
    }
}

/// Parse string content after the opening quote: the decoded bytes and the
/// position just past the closing quote. Accepts the standard JSON escapes;
/// a `\uXXXX` escape decodes to the code point's UTF-8 bytes (surrogate
/// halves are rejected).
pub open spec fn sp_str_body(s: Seq<u8>, i: int) -> Option<(Seq<u8>, int)>
    decreases s.len() - i,
{
    if !(0 <= i < s.len()) {
        None
    } else if s[i] == QUOTE {
        Some((Seq::empty(), i + 1))
    } else if s[i] == BACKSLASH {
        if i + 1 < s.len() && simple_unesc(s[i + 1]) is Some {
            match sp_str_body(s, i + 2) {
                Some((t, k)) => Some((seq![simple_unesc(s[i + 1]).unwrap()] + t, k)),
                None => None,
            }
        } else if i + 5 < s.len() && s[i + 1] == 117 && is_hex(s[i + 2]) && is_hex(s[i + 3])
            && is_hex(s[i + 4]) && is_hex(s[i + 5]) {
            let cp = hex4val(s[i + 2], s[i + 3], s[i + 4], s[i + 5]);
            if 0xD800 <= cp < 0xE000 {
                None
            } else {
                match sp_str_body(s, i + 6) {
                    Some((t, k)) => Some((utf8_of(cp) + t, k)),
                    None => None,
                }
            }
        } else {
            None
        }
    } else if s[i] < 32 {
        None
    } else {
        match sp_str_body(s, i + 1) {
            Some((t, k)) => Some((seq![s[i]] + t, k)),
            None => None,
        }
    }
}

/// Parse a quoted string starting at `i`.
pub open spec fn sp_string(s: Seq<u8>, i: int) -> Option<(Seq<u8>, int)> {
    if 0 <= i < s.len() && s[i] == QUOTE {
        sp_str_body(s, i + 1)
    } else {
        None
    }
}

/// The maximal run of decimal digits starting at `i`.
pub open spec fn sp_digits(s: Seq<u8>, i: int) -> (Seq<u8>, int)
    decreases s.len() - i,
{
    if 0 <= i < s.len() && is_digit(s[i]) {
        let (d, j) = sp_digits(s, i + 1);
        (seq![s[i]] + d, j)
    } else {
        (Seq::empty(), i)
    }
}

/// Numeric value of a digit run, rejecting values beyond `u32`.
pub open spec fn sp_val(ds: Seq<u8>) -> Option<int>
    decreases ds.len(),
{
    if ds.len() == 0 {
        None
    } else if ds.len() == 1 {
        Some(ds[0] - 48)
    } else {
        match sp_val(ds.drop_last()) {
            Some(h) => {
                let v = h * 10 + (ds.last() - 48);
                if v > u32::MAX {
                    None
                } else {
                    Some(v)
                }
            },
            None => None,
        }
    }
}

/// Parse an unsigned decimal number that fits in `u32`. A leading zero
/// before further digits is not a JSON number.
pub open spec fn sp_num(s: Seq<u8>, i: int) -> Option<(u32, int)> {
    let (ds, j) = sp_digits(s, i);
    if ds.len() == 0 {
        None
    } else if ds.len() >= 2 && ds[0] == 48 {
        None
    } else {
        match sp_val(ds) {
            Some(v) => if 0 <= v <= u32::MAX {
                Some((v as u32, j))
            } else {
                None
            },
            None => None,
        }
    }
}

/// Pass over a JSON number without keeping its value.
pub open spec fn sp_skip_number(s: Seq<u8>, i: int) -> Option<int> {
    let st = if 0 <= i < s.len() && s[i] == 45 {
        i + 1
    } else {
        i
    };
    let (d1, j1) = sp_digits(s, st);
    if d1.len() == 0 {
        None
    } else {
        let j2 = if j1 < s.len() && s[j1] == 46 {
            let (d2, jf) = sp_digits(s, j1 + 1);
            if d2.len() == 0 {
                -1
            } else {
                jf
            }
        } else {
            j1
        };
        if j2 < 0 {
            None
        } else if j2 < s.len() && (s[j2] == 101 || s[j2] == 69) {
            let je = if j2 + 1 < s.len() && (s[j2 + 1] == 43 || s[j2 + 1] == 45) {
                j2 + 2
            } else {
                j2 + 1
            };
            let (d3, j3) = sp_digits(s, je);
            if d3.len() == 0 {
                None
            } else {
                Some(j3)
            }
        } else {
            Some(j2)
        }
    }
}

/// Pass over any JSON value; `Some(j)` is the position just past it.
/// Unknown members of the two schema objects are skipped through this.
pub open spec fn sp_skip_value(s: Seq<u8>, i: int) -> Option<int>
    decreases s.len() - i, 0int,
{
    if !(0 <= i < s.len()) {
        None
    } else if s[i] == QUOTE {
        match sp_string(s, i) {
            Some((v, j)) => Some(j),
            None => None,
        }
    } else if s[i] == LBRACKET {
        let k = sp_skip_ws(s, i + 1);
        if 0 <= k < s.len() && s[k] == RBRACKET {
            Some(k + 1)
        } else if i < k <= s.len() {
            sp_skip_elems(s, k)
        } else {
            None
        }
    } else if s[i] == LBRACE {
        let k = sp_skip_ws(s, i + 1);
        if 0 <= k < s.len() && s[k] == RBRACE {
            Some(k + 1)
        } else if i < k <= s.len() {
            sp_skip_members(s, k)
        } else {
            None
        }
    } else if s[i] == 116 {
        if i + 3 < s.len() && s[i + 1] == 114 && s[i + 2] == 117 && s[i + 3] == 101 {
            Some(i + 4)
        } else {
            None
        }
    } else if s[i] == 102 {
        if i + 4 < s.len() && s[i + 1] == 97 && s[i + 2] == 108 && s[i + 3] == 115 && s[i + 4]
            == 101 {
            Some(i + 5)
        } else {
            None
        }
    } else if s[i] == 110 {
        if i + 3 < s.len() && s[i + 1] == 117 && s[i + 2] == 108 && s[i + 3] == 108 {
            Some(i + 4)
        } else {
            None
        }
    } else {
        sp_skip_number(s, i)
    }
}

/// Pass over array elements up to the closing bracket.
pub open spec fn sp_skip_elems(s: Seq<u8>, i: int) -> Option<int>
    decreases s.len() - i, 1int,
{
    if !(0 <= i <= s.len()) {
        None
    } else {
        match sp_skip_value(s, i) {
            None => None,
            Some(j) => {
                let k = sp_skip_ws(s, j);
                if 0 <= k < s.len() && s[k] == RBRACKET {
                    Some(k + 1)
                } else if 0 <= k < s.len() && s[k] == COMMA {
                    let k2 = sp_skip_ws(s, k + 1);
                    if i < k2 <= s.len() {
                        sp_skip_elems(s, k2)
                    } else {
                        None
                    }
                } else {
                    None
                }
            },
        }
    }
}

/// Pass over object members up to the closing brace.
pub open spec fn sp_skip_members(s: Seq<u8>, i: int) -> Option<int>
    decreases s.len() - i, 1int,
{
    if !(0 <= i <= s.len()) {
        None
    } else {
        match sp_string(s, i) {
            None => None,
            Some((key, j)) => {
                let k = sp_skip_ws(s, j);
                if !(0 <= k < s.len() && s[k] == COLON) {
                    None
                } else {
                    let k2 = sp_skip_ws(s, k + 1);
                    if !(i <= k2 <= s.len()) {
                        None
                    } else {
                        match sp_skip_value(s, k2) {
                            None => None,
                            Some(j2) => {
                                let k3 = sp_skip_ws(s, j2);
                                if 0 <= k3 < s.len() && s[k3] == RBRACE {
                                    Some(k3 + 1)
                                } else if 0 <= k3 < s.len() && s[k3] == COMMA {
                                    let k4 = sp_skip_ws(s, k3 + 1);
                                    if i < k4 <= s.len() {
                                        sp_skip_members(s, k4)
                                    } else {
                                        None
                                    }
                                } else {
                                    None
                                }
                            },
                        }
                    }
                }
            },
        }
    }
}

/// Walk an entry object's members, in any order: `source` and `target` take
/// string values and may each appear once; any other member is skipped for
/// forward compatibility. Succeeds at the closing brace once both fields
/// were seen.
pub open spec fn sp_entry_members(
    s: Seq<u8>,
    i: int,
    src: Option<Seq<u8>>,
    tgt: Option<Seq<u8>>,
) -> Option<(ConfigV, int)>
    decreases s.len() - i,
{
    if !(0 <= i <= s.len()) {
        None
    } else {
        match sp_string(s, i) {
            None => None,
            Some((key, j)) => {
                let k = sp_skip_ws(s, j);
                if !(0 <= k < s.len() && s[k] == COLON) {
                    None
                } else {
                    let k2 = sp_skip_ws(s, k + 1);
                    let step: Option<((Option<Seq<u8>>, Option<Seq<u8>>), int)> = if key
                        == key_source() {
                        if src is Some {
                            None
                        } else {
                            match sp_string(s, k2) {
                                Some((v, j2)) => Some(((Some(v), tgt), j2)),
                                None => None,
                            }
                        }
                    } else if key == key_target() {
                        if tgt is Some {
                            None
                        } else {
                            match sp_string(s, k2) {
                                Some((v, j2)) => Some(((src, Some(v)), j2)),
                                None => None,
                            }
                        }
                    } else {
                        if !(i <= k2 <= s.len()) {
                            None
                        } else {
                            match sp_skip_value(s, k2) {
                                Some(j2) => Some(((src, tgt), j2)),
                                None => None,
                            }
                        }
                    };
                    match step {
                        None => None,
                        Some((st, j2)) => {
                            let k3 = sp_skip_ws(s, j2);
                            if 0 <= k3 < s.len() && s[k3] == RBRACE {
                                if st.0 is Some && st.1 is Some {
                                    Some(
                                        (
                                            ConfigV {
                                                source: st.0.unwrap(),
                                                target: st.1.unwrap(),
                                            },
                                            k3 + 1,
                                        ),
                                    )
                                } else {
                                    None
                                }
                            } else if 0 <= k3 < s.len() && s[k3] == COMMA {
                                let k4 = sp_skip_ws(s, k3 + 1);
                                if i < k4 <= s.len() {
                                    sp_entry_members(s, k4, st.0, st.1)
                                } else {
                                    None
                                }
                            } else {
                                None
                            }
                        },
                    }
                }
            },
        }
    }
}

/// Parse one entry object: `{ "source": <string>, "target": <string> }`,
/// members in any order, unknown members ignored.
pub open spec fn sp_entry(s: Seq<u8>, i: int) -> Option<(ConfigV, int)> {
    if !(0 <= i < s.len() && s[i] == LBRACE) {
        None
    } else {
        let k = sp_skip_ws(s, i + 1);
        if !(i < k <= s.len()) {
            None
        } else {
            sp_entry_members(s, k, None, None)
        }
    }
}

/// Parse entry objects separated by commas up to the closing bracket.
/// A structurally repeated entry within one list is rejected.
pub open spec fn sp_entries(s: Seq<u8>, i: int) -> Option<(Seq<ConfigV>, int)>
    decreases s.len() - i,
{
    match sp_entry(s, i) {
        None => None,
        Some((e, j)) => {
            let k = sp_skip_ws(s, j);
            if 0 <= k < s.len() && s[k] == RBRACKET {
                Some((seq![e], k + 1))
            } else if 0 <= k < s.len() && s[k] == COMMA {
                let k2 = sp_skip_ws(s, k + 1);
                if i < k2 <= s.len() {
                    match sp_entries(s, k2) {
                        None => None,
                        Some((rest, j2)) => if rest.contains(e) {
                            None
                        } else {
                            Some((seq![e] + rest, j2))
                        },
                    }
                } else {
                    None
                }
            } else {
                None
            }
        },
    }
}

/// Parse a name's entry list.
pub open spec fn sp_list(s: Seq<u8>, i: int) -> Option<(Seq<ConfigV>, int)> {
    if !(0 <= i < s.len() && s[i] == LBRACKET) {
        None
    } else {
        let k = sp_skip_ws(s, i + 1);
        if 0 <= k < s.len() && s[k] == RBRACKET {
            Some((Seq::empty(), k + 1))
        } else {
            sp_entries(s, k)
        }
    }
}

/// Parse `"name": [ ... ]` members separated by commas up to the closing
/// brace. A repeated name is rejected.
pub open spec fn sp_pairs(s: Seq<u8>, i: int) -> Option<(DbMapV, int)>
    decreases s.len() - i,
{
    match sp_string(s, i) {
        None => None,
        Some((name, j)) => {
            let k = sp_skip_ws(s, j);
            if !(0 <= k < s.len() && s[k] == COLON) {
                None
            } else {
                let k2 = sp_skip_ws(s, k + 1);
                match sp_list(s, k2) {
                    None => None,
                    Some((l, j2)) => {
                        let k3 = sp_skip_ws(s, j2);
                        if 0 <= k3 < s.len() && s[k3] == RBRACE {
                            Some((seq![(name, l)], k3 + 1))
                        } else if 0 <= k3 < s.len() && s[k3] == COMMA {
                            let k4 = sp_skip_ws(s, k3 + 1);
                            if i < k4 <= s.len() {
                                match sp_pairs(s, k4) {
                                    None => None,
                                    Some((rest, j3)) => if crate::db::has_name(rest, name) {
                                        None
                                    } else {
                                        Some((seq![(name, l)] + rest, j3))
                                    },
                                }
                            } else {
                                None
                            }
                        } else {
                            None
                        }
                    },
                }
            }
        },
    }
}

/// Parse the configs object.
pub open spec fn sp_cfg_map(s: Seq<u8>, i: int) -> Option<(DbMapV, int)> {
    if !(0 <= i < s.len() && s[i] == LBRACE) {
        None
    } else {
        let k = sp_skip_ws(s, i + 1);
        if 0 <= k < s.len() && s[k] == RBRACE {
            Some((Seq::empty(), k + 1))
        } else {
            sp_pairs(s, k)
        }
    }
}

/// Walk the top-level object's members, in any order: `version` takes a
/// number, `configs` the mapping, each at most once; any other member is
/// skipped for forward compatibility. Succeeds at the closing brace once
/// both fields were seen.
pub open spec fn sp_db_members(
    s: Seq<u8>,
    i: int,
    ver: Option<u32>,
    cfg: Option<DbMapV>,
) -> Option<((u32, DbMapV), int)>
    decreases s.len() - i,
{
    if !(0 <= i <= s.len()) {
        None
    } else {
        match sp_string(s, i) {
            None => None,
            Some((key, j)) => {
                let k = sp_skip_ws(s, j);
                if !(0 <= k < s.len() && s[k] == COLON) {
                    None
                } else {
                    let k2 = sp_skip_ws(s, k + 1);
                    let step: Option<((Option<u32>, Option<DbMapV>), int)> = if key
                        == key_version() {
                        if ver is Some {
                            None
                        } else {
                            match sp_num(s, k2) {
                                Some((v, j2)) => Some(((Some(v), cfg), j2)),
                                None => None,
                            }
                        }
                    } else if key == key_configs() {
                        if cfg is Some {
                            None
                        } else {
                            match sp_cfg_map(s, k2) {
                                Some((m, j2)) => Some(((ver, Some(m)), j2)),
                                None => None,
                            }
                        }
                    } else {
                        if !(i <= k2 <= s.len()) {
                            None
                        } else {
                            match sp_skip_value(s, k2) {
                                Some(j2) => Some(((ver, cfg), j2)),
                                None => None,
                            }
                        }
                    };
                    match step {
                        None => None,
                        Some((st, j2)) => {
                            let k3 = sp_skip_ws(s, j2);
                            if 0 <= k3 < s.len() && s[k3] == RBRACE {
                                if st.0 is Some && st.1 is Some {
                                    Some(((st.0.unwrap(), st.1.unwrap()), k3 + 1))
                                } else {
                                    None
                                }
                            } else if 0 <= k3 < s.len() && s[k3] == COMMA {
                                let k4 = sp_skip_ws(s, k3 + 1);
                                if i < k4 <= s.len() {
                                    sp_db_members(s, k4, st.0, st.1)
                                } else {
                                    None
                                }
                            } else {
                                None
                            }
                        },
                    }
                }
            },
        }
    }
}

/// Parse a whole database document: the schema version and the mapping,
/// members in any order, unknown members ignored. Nothing but whitespace
/// may follow the closing brace.
pub open spec fn sp_db(s: Seq<u8>) -> Option<(u32, DbMapV)> {
    let i0 = sp_skip_ws(s, 0);
    if !(0 <= i0 < s.len() && s[i0] == LBRACE) {
        None
    } else {
        let i1 = sp_skip_ws(s, i0 + 1);
        if !(i0 < i1 <= s.len()) {
            None
        } else {
            match sp_db_members(s, i1, None, None) {
                None => None,
                Some((vm, j)) => {
                    let i9 = sp_skip_ws(s, j);
                    if i9 == s.len() {
                        Some(vm)
                    } else {
                        None
                    }
                },
            }
        }
    }
}

fn hexd(n: u8) -> (r: u8)
    requires
        n < 16,
    ensures
        r == hex_digit(n),
{
    if n < 10 {
        48 + n
    } else {
        87 + n
    }
}

fn push_nl_ind(out: &mut Vec<u8>, k: usize)
    ensures
        final(out)@ == old(out)@ + nl_ind(k as nat),
{
    out.push(NEWLINE);
    let mut i: usize = 0;
    while i < k
        invariant
            i <= k,
            out@ == old(out)@ + nl_ind(i as nat),
        decreases k - i,
    {
        out.push(SPACE);
        i = i + 1;
    }
}

fn push_esc(out: &mut Vec<u8>, s: &Vec<u8>)
    ensures
        final(out)@ == old(out)@ + esc(s@),
{
    let mut i: usize = 0;
    proof {
        assert(esc(s@.take(0)) =~= Seq::<u8>::empty());
        assert(out@ =~= out@ + esc(s@.take(0)));
    }
    while i < s.len()
        invariant
            i <= s@.len(),
            out@ == old(out)@ + esc(s@.take(i as int)),
        decreases s@.len() - i,
    {
        let b = s[i];
        if b == QUOTE {
            out.push(BACKSLASH);
            out.push(QUOTE);
        } else if b == BACKSLASH {
            out.push(BACKSLASH);
            out.push(BACKSLASH);
        } else if b < 32 {
            out.push(BACKSLASH);
            out.push(117);
            out.push(48);
            out.push(48);
            out.push(hexd(b / 16));
            out.push(hexd(b % 16));
        } else {
            out.push(b);
        }
        i = i + 1;
        proof {
            assert(s@.take(i as int).drop_last() =~= s@.take(i - 1));
            assert(s@.take(i as int).last() == s@[i - 1]);
            assert(out@ =~= old(out)@ + esc(s@.take(i as int)));
        }
    }
    proof {
        assert(s@.take(s@.len() as int) =~= s@);
    }
}

fn push_qstr(out: &mut Vec<u8>, s: &Vec<u8>)
    ensures
        final(out)@ == old(out)@ + qstr(s@),
{
    out.push(QUOTE);
    push_esc(out, s);
    out.push(QUOTE);
    proof {
        assert(out@ =~= old(out)@ + qstr(s@));
    }
}

fn push_dec(out: &mut Vec<u8>, n: u32)
    ensures
        final(out)@ == old(out)@ + dec(n as nat),
    decreases n,
{
    if n < 10 {
        out.push(48 + (n as u8));
    } else {
        push_dec(out, n / 10);
        out.push(48 + ((n % 10) as u8));
        proof {
            assert(out@ =~= old(out)@ + dec(n as nat));
        }
    }
}

fn key_version_vec() -> (v: Vec<u8>)
    ensures
        v@ == key_version(),
{
    let mut v: Vec<u8> = Vec::new();
    v.push(118);
    v.push(101);
    v.push(114);
    v.push(115);
    v.push(105);
    v.push(111);
    v.push(110);
    proof {
        assert(v@ =~= key_version());
    }
    v
}

fn key_configs_vec() -> (v: Vec<u8>)
    ensures
        v@ == key_configs(),
{
    let mut v: Vec<u8> = Vec::new();
    v.push(99);
    v.push(111);
    v.push(110);
    v.push(102);
    v.push(105);
    v.push(103);
    v.push(115);
    proof {
        assert(v@ =~= key_configs());
    }
    v
}

fn key_source_vec() -> (v: Vec<u8>)
    ensures
        v@ == key_source(),
{
    let mut v: Vec<u8> = Vec::new();
    v.push(115);
    v.push(111);
    v.push(117);
    v.push(114);
    v.push(99);
    v.push(101);
    proof {
        assert(v@ =~= key_source());
    }
    v
}

fn key_target_vec() -> (v: Vec<u8>)
    ensures
        v@ == key_target(),
{
    let mut v: Vec<u8> = Vec::new();
    v.push(116);
    v.push(97);
    v.push(114);
    v.push(103);
    v.push(101);
    v.push(116);
    proof {
        assert(v@ =~= key_target());
    }
    v
}

fn push_entry(out: &mut Vec<u8>, c: &Config)
    ensures
        final(out)@ == old(out)@ + ser_entry(c@),
{
    out.push(LBRACE);
    push_nl_ind(out, 8);
    let ks = key_source_vec();
    push_qstr(out, &ks);
    out.push(COLON);
    out.push(SPACE);
    push_qstr(out, c.source());
    out.push(COMMA);
    push_nl_ind(out, 8);
    let kt = key_target_vec();
    push_qstr(out, &kt);
    out.push(COLON);
    out.push(SPACE);
    push_qstr(out, c.target());
    push_nl_ind(out, 6);
    out.push(RBRACE);
    proof {
        assert(out@ =~= old(out)@ + ser_entry(c@));
    }
}

fn push_list(out: &mut Vec<u8>, l: &Vec<Config>)
    ensures
        final(out)@ == old(out)@ + ser_list(views_of(l@)),
{
    if l.len() == 0 {
        out.push(LBRACKET);
        out.push(RBRACKET);
        proof {
            assert(out@ =~= old(out)@ + ser_list(views_of(l@)));
        }
        return ;
    }
    out.push(LBRACKET);
    push_nl_ind(out, 6);
    let ghost lv = views_of(l@);
    let mut i: usize = 0;
    while i < l.len()
        invariant
            1 <= l@.len(),
            i <= l@.len(),
            lv == views_of(l@),
            lv.len() == l@.len(),
            i == 0 ==> out@ == old(out)@ + seq![LBRACKET] + nl_ind(6),
            i >= 1 ==> out@ == old(out)@ + seq![LBRACKET] + nl_ind(6) + ser_entries(
                lv.take(i as int),
            ),
        decreases l@.len() - i,
    {
        if i > 0 {
            out.push(COMMA);
            push_nl_ind(out, 6);
        }
        push_entry(out, &l[i]);
        proof {
            let t = lv.take(i + 1);
            assert(t.drop_last() =~= lv.take(i as int));
            assert(t.last() == lv[i as int]);
            assert(lv[i as int] == l@[i as int]@);
            if i == 0 {
                assert(ser_entries(t) == ser_entry(lv[0]));
            }
            assert(out@ =~= old(out)@ + seq![LBRACKET] + nl_ind(6) + ser_entries(t));
        }
        i = i + 1;
    }
    push_nl_ind(out, 4);
    out.push(RBRACKET);
    proof {
        assert(lv.take(l@.len() as int) =~= lv);
        assert(out@ =~= old(out)@ + ser_list(lv));
    }
}

fn push_cfg_map(out: &mut Vec<u8>, m: &Vec<(Vec<u8>, Vec<Config>)>)
    ensures
        final(out)@ == old(out)@ + ser_cfg_map(parts_view(m@)),
{
    if m.len() == 0 {
        out.push(LBRACE);
        out.push(RBRACE);
        proof {
            assert(out@ =~= old(out)@ + ser_cfg_map(parts_view(m@)));
        }
        return ;
    }
    out.push(LBRACE);
    push_nl_ind(out, 4);
    let ghost mv = parts_view(m@);
    let mut i: usize = 0;
    while i < m.len()
        invariant
            1 <= m@.len(),
            i <= m@.len(),
            mv == parts_view(m@),
            mv.len() == m@.len(),
            i == 0 ==> out@ == old(out)@ + seq![LBRACE] + nl_ind(4),
            i >= 1 ==> out@ == old(out)@ + seq![LBRACE] + nl_ind(4) + ser_pairs(
                mv.take(i as int),
            ),
        decreases m@.len() - i,
    {
        if i > 0 {
            out.push(COMMA);
            push_nl_ind(out, 4);
        }
        push_qstr(out, &m[i].0);
        out.push(COLON);
        out.push(SPACE);
        push_list(out, &m[i].1);
        proof {
            let t = mv.take(i + 1);
            assert(t.drop_last() =~= mv.take(i as int));
            assert(t.last() == mv[i as int]);
            assert(mv[i as int].0 == m@[i as int].0@);
            assert(mv[i as int].1 == views_of(m@[i as int].1@));
            if i == 0 {
                assert(ser_pairs(t) == ser_pair(mv[0]));
            }
            assert(out@ =~= old(out)@ + seq![LBRACE] + nl_ind(4) + ser_pairs(t));
        }
        i = i + 1;
    }
    push_nl_ind(out, 2);
    out.push(RBRACE);
    proof {
        assert(mv.take(m@.len() as int) =~= mv);
        assert(out@ =~= old(out)@ + ser_cfg_map(mv));
    }
}

/// Byte-for-byte equality of two byte vectors.
fn bytes_is(v: &Vec<u8>, w: &Vec<u8>) -> (r: bool)
    ensures
        r == (v@ == w@),
{
    if v.len() != w.len() {
        return false;
    }
    let mut i: usize = 0;
    while i < v.len()
        invariant
            i <= v@.len(),
            v@.len() == w@.len(),
            forall|k: int| 0 <= k < i ==> v@[k] == w@[k],
        decreases v@.len() - i,
    {
        if v[i] != w[i] {
            return false;
        }
        i = i + 1;
    }
    proof {
        assert(v@ =~= w@);
    }
    true
}

fn skip_ws(s: &Vec<u8>, i: usize) -> (r: usize)
    requires
        i <= s@.len(),
    ensures
        r == sp_skip_ws(s@, i as int),
        i <= r <= s@.len(),
{
    let mut j = i;
    while j < s.len() && (s[j] == 32 || s[j] == 9 || s[j] == 10 || s[j] == 13)
        invariant
            i <= j <= s@.len(),
            sp_skip_ws(s@, i as int) == sp_skip_ws(s@, j as int),
        decreases s@.len() - j,
    {
        j = j + 1;
    }
    j
}

fn p_str_body(s: &Vec<u8>, i: usize) -> (r: Option<(Vec<u8>, usize)>)
    requires
        i <= s@.len(),
    ensures
        match r {
            Some(p) => sp_str_body(s@, i as int) == Some((p.0@, p.1 as int)) && i < p.1
                <= s@.len(),
            None => sp_str_body(s@, i as int) is None,
        },
    decreases s@.len() - i,
{
    if i >= s.len() {
        return None;
    }
    let b = s[i];
    if b == QUOTE {
        let empty: Vec<u8> = Vec::new();
        proof {
            assert(empty@ =~= Seq::<u8>::empty());
        }
        return Some((empty, i + 1));
    }
    if b == BACKSLASH {
        if i + 1 < s.len() {
            let e = s[i + 1];
            let simple: Option<u8> = if e == QUOTE {
                Some(QUOTE)
            } else if e == BACKSLASH {
                Some(BACKSLASH)
            } else if e == 47 {
                Some(47)
            } else if e == 98 {
                Some(8)
            } else if e == 116 {
                Some(9)
            } else if e == 110 {
                Some(10)
            } else if e == 102 {
                Some(12)
            } else if e == 114 {
                Some(13)
            } else {
                None
            };
            proof {
                assert(simple == simple_unesc(e));
            }
            match simple {
                Some(c) => {
                    match p_str_body(s, i + 2) {
                        Some(p) => {
                            let mut t = p.0;
                            t.insert(0, c);
                            proof {
                                assert(t@ =~= seq![c] + p.0@);
                            }
                            Some((t, p.1))
                        },
                        None => None,
                    }
                },
                None => {
                    if s.len() - i >= 6 && e == 117 && is_hex_exec(s[i + 2]) && is_hex_exec(
                        s[i + 3],
                    ) && is_hex_exec(s[i + 4]) && is_hex_exec(s[i + 5]) {
                        let h0 = hexval_exec(s[i + 2]) as u32;
                        let h1 = hexval_exec(s[i + 3]) as u32;
                        let h2 = hexval_exec(s[i + 4]) as u32;
                        let h3 = hexval_exec(s[i + 5]) as u32;
                        let cp: u32 = h0 * 4096 + h1 * 256 + h2 * 16 + h3;
                        proof {
                            assert(cp as nat == hex4val(s@[i + 2], s@[i + 3], s@[i + 4], s@[
                                i + 5
                            ]));
                        }
                        if 0xD800 <= cp && cp < 0xE000 {
                            None
                        } else {
                            match p_str_body(s, i + 6) {
                                Some(p) => {
                                    let mut t = p.0;
                                    if cp < 0x80 {
                                        t.insert(0, cp as u8);
                                    } else if cp < 0x800 {
                                        t.insert(0, (128 + (cp % 64)) as u8);
                                        t.insert(0, (192 + cp / 64) as u8);
                                    } else {
                                        t.insert(0, (128 + (cp % 64)) as u8);
                                        t.insert(0, (128 + ((cp / 64) % 64)) as u8);
                                        t.insert(0, (224 + cp / 4096) as u8);
                                    }
                                    proof {
                                        assert(t@ =~= utf8_of(cp as nat) + p.0@);
                                    }
                                    Some((t, p.1))
                                },
                                None => None,
                            }
                        }
                    } else {
                        None
                    }
                },
            }
        } else {
            None
        }
    } else if b < 32 {
        None
    } else {
        match p_str_body(s, i + 1) {
            Some(p) => {
                let mut t = p.0;
                t.insert(0, b);
                proof {
                    assert(t@ =~= seq![b] + p.0@);
                }
                Some((t, p.1))
            },
            None => None,
        }
    }
}

fn hexval_exec(b: u8) -> (r: u8)
    requires
        is_hex(b),
    ensures
        r == hexval(b),
        r < 16,
{
    if 48 <= b && b <= 57 {
        b - 48
    } else if 97 <= b && b <= 102 {
        b - 87
    } else {
        b - 55
    }
}

fn is_hex_exec(b: u8) -> (r: bool)
    ensures
        r == is_hex(b),
{
    (48 <= b && b <= 57) || (97 <= b && b <= 102) || (65 <= b && b <= 70)
}

fn p_string(s: &Vec<u8>, i: usize) -> (r: Option<(Vec<u8>, usize)>)
    requires
        i <= s@.len(),
    ensures
        match r {
            Some(p) => sp_string(s@, i as int) == Some((p.0@, p.1 as int)) && i < p.1
                <= s@.len(),
            None => sp_string(s@, i as int) is None,
        },
{
    if i < s.len() && s[i] == QUOTE {
        p_str_body(s, i + 1)
    } else {
        None
    }
}

fn p_num(s: &Vec<u8>, i: usize) -> (r: Option<(u32, usize)>)
    requires
        i <= s@.len(),
    ensures
        match r {
            Some(p) => sp_num(s@, i as int) == Some((p.0, p.1 as int)) && i <= p.1 <= s@.len(),
            None => sp_num(s@, i as int) is None,
        },
{
    let mut j = i;
    let mut ds: Vec<u8> = Vec::new();
    proof {
        assert(ds@ =~= Seq::<u8>::empty());
        assert(Seq::<u8>::empty() + sp_digits(s@, j as int).0 =~= sp_digits(s@, j as int).0);
    }
    while j < s.len() && 48 <= s[j] && s[j] <= 57
        invariant
            i <= j <= s@.len(),
            sp_digits(s@, i as int).0 == ds@ + sp_digits(s@, j as int).0,
            sp_digits(s@, i as int).1 == sp_digits(s@, j as int).1,
            ds@.len() == j - i,
            forall|t: int| 0 <= t < ds@.len() ==> is_digit(#[trigger] ds@[t]),
        decreases s@.len() - j,
    {
        ds.push(s[j]);
        j = j + 1;
        proof {
            assert(sp_digits(s@, i as int).0 =~= ds@ + sp_digits(s@, j as int).0);
        }
    }
    proof {
        assert(sp_digits(s@, j as int).0 =~= Seq::<u8>::empty());
        assert(sp_digits(s@, i as int).0 =~= ds@);
        assert(sp_digits(s@, i as int).1 == j as int);
    }
    if ds.len() == 0 {
        return None;
    }
    if ds.len() >= 2 && ds[0] == 48 {
        return None;
    }
    let mut acc: u32 = 0;
    let mut k: usize = 0;
    while k < ds.len()
        invariant
            k <= ds@.len(),
            1 <= ds@.len(),
            i <= j <= s@.len(),
            sp_digits(s@, i as int).0 == ds@,
            sp_digits(s@, i as int).1 == j as int,
            forall|t: int| 0 <= t < ds@.len() ==> is_digit(#[trigger] ds@[t]),
            k >= 1 ==> sp_val(ds@.take(k as int)) == Some(acc as int),
            k == 0 ==> acc == 0,
        decreases ds@.len() - k,
    {
        let d = ds[k];
        let wide: u64 = (acc as u64) * 10 + ((d - 48) as u64);
        if k > 0 && wide > (u32::MAX as u64) {
            proof {
                let t = ds@.take(k + 1);
                assert(t.drop_last() =~= ds@.take(k as int));
                assert(t.last() == ds@[k as int]);
                assert(sp_val(t) is None);
                lemma_sp_val_none_mono(ds@, k + 1);
                assert(sp_val(ds@) is None);
                assert(sp_digits(s@, i as int).0 == ds@);
                assert(sp_num(s@, i as int) is None);
            }
            return None;
        }
        acc = if k == 0 {
            (d - 48) as u32
        } else {
            (wide as u32)
        };
        k = k + 1;
        proof {
            let t = ds@.take(k as int);
            assert(t.drop_last() =~= ds@.take(k - 1));
            assert(t.last() == ds@[k - 1]);
            if k == 1 {
                assert(sp_val(t) == Some((ds@[0] - 48) as int));
            }
            assert(sp_val(ds@.take(k as int)) == Some(acc as int));
        }
    }
    proof {
        assert(ds@.take(ds@.len() as int) =~= ds@);
    }
    Some((acc, j))
}

/// Once a digit-run prefix overflows, the whole run's value is rejected.
proof fn lemma_sp_val_none_mono(ds: Seq<u8>, k: int)
    requires
        1 <= k <= ds.len(),
        sp_val(ds.take(k)) is None,
    ensures
        sp_val(ds) is None,
    decreases ds.len() - k,
{
    if k == ds.len() {
        assert(ds.take(k) =~= ds);
    } else {
        assert(ds.take(k + 1).drop_last() =~= ds.take(k));
        lemma_sp_val_none_mono(ds, k + 1);
    }
}

fn digits_end(s: &Vec<u8>, i: usize) -> (r: usize)
    requires
        i <= s@.len(),
    ensures
        r as int == sp_digits(s@, i as int).1,
        i <= r <= s@.len(),
        sp_digits(s@, i as int).0.len() == r - i,
{
    let mut j = i;
    while j < s.len() && 48 <= s[j] && s[j] <= 57
        invariant
            i <= j <= s@.len(),
            sp_digits(s@, i as int).1 == sp_digits(s@, j as int).1,
            sp_digits(s@, i as int).0.len() == (j - i) + sp_digits(s@, j as int).0.len(),
        decreases s@.len() - j,
    {
        j = j + 1;
    }
    j
}

fn p_skip_number(s: &Vec<u8>, i: usize) -> (r: Option<usize>)
    requires
        i <= s@.len(),
    ensures
        match r {
            Some(j) => sp_skip_number(s@, i as int) == Some(j as int) && i < j <= s@.len(),
            None => sp_skip_number(s@, i as int) is None,
        },
{
    let st = if i < s.len() && s[i] == 45 {
        i + 1
    } else {
        i
    };
    let j1 = digits_end(s, st);
    if j1 == st {
        return None;
    }
    let j2opt: Option<usize> = if j1 < s.len() && s[j1] == 46 {
        let jf = digits_end(s, j1 + 1);
        if jf == j1 + 1 {
            None
        } else {
            Some(jf)
        }
    } else {
        Some(j1)
    };
    match j2opt {
        None => None,
        Some(j2) => {
            if j2 < s.len() && (s[j2] == 101 || s[j2] == 69) {
                let je = if j2 + 1 < s.len() && (s[j2 + 1] == 43 || s[j2 + 1] == 45) {
                    j2 + 2
                } else {
                    j2 + 1
                };
                let j3 = digits_end(s, je);
                if j3 == je {
                    None
                } else {
                    Some(j3)
                }
            } else {
                Some(j2)
            }
        },
    }
}

fn p_skip_value(s: &Vec<u8>, i: usize) -> (r: Option<usize>)
    requires
        i <= s@.len(),
    ensures
        match r {
            Some(j) => sp_skip_value(s@, i as int) == Some(j as int) && i < j <= s@.len(),
            None => sp_skip_value(s@, i as int) is None,
        },
    decreases s@.len() - i, 0int,
{
    if i >= s.len() {
        return None;
    }
    let b = s[i];
    if b == QUOTE {
        match p_string(s, i) {
            Some(p) => Some(p.1),
            None => None,
        }
    } else if b == LBRACKET {
        let k = skip_ws(s, i + 1);
        if k < s.len() && s[k] == RBRACKET {
            Some(k + 1)
        } else {
            p_skip_elems(s, k)
        }
    } else if b == LBRACE {
        let k = skip_ws(s, i + 1);
        if k < s.len() && s[k] == RBRACE {
            Some(k + 1)
        } else {
            p_skip_members(s, k)
        }
    } else if b == 116 {
        if s.len() - i >= 4 && s[i + 1] == 114 && s[i + 2] == 117 && s[i + 3] == 101 {
            Some(i + 4)
        } else {
            None
        }
    } else if b == 102 {
        if s.len() - i >= 5 && s[i + 1] == 97 && s[i + 2] == 108 && s[i + 3] == 115 && s[i + 4]
            == 101 {
            Some(i + 5)
        } else {
            None
        }
    } else if b == 110 {
        if s.len() - i >= 4 && s[i + 1] == 117 && s[i + 2] == 108 && s[i + 3] == 108 {
            Some(i + 4)
        } else {
            None
        }
    } else {
        p_skip_number(s, i)
    }
}

fn p_skip_elems(s: &Vec<u8>, i: usize) -> (r: Option<usize>)
    requires
        i <= s@.len(),
    ensures
        match r {
            Some(j) => sp_skip_elems(s@, i as int) == Some(j as int) && i < j <= s@.len(),
            None => sp_skip_elems(s@, i as int) is None,
        },
    decreases s@.len() - i, 1int,
{
    match p_skip_value(s, i) {
        None => None,
        Some(j) => {
            let k = skip_ws(s, j);
            if k < s.len() && s[k] == RBRACKET {
                Some(k + 1)
            } else if k < s.len() && s[k] == COMMA {
                let k2 = skip_ws(s, k + 1);
                p_skip_elems(s, k2)
            } else {
                None
            }
        },
    }
}

fn p_skip_members(s: &Vec<u8>, i: usize) -> (r: Option<usize>)
    requires
        i <= s@.len(),
    ensures
        match r {
            Some(j) => sp_skip_members(s@, i as int) == Some(j as int) && i < j <= s@.len(),
            None => sp_skip_members(s@, i as int) is None,
        },
    decreases s@.len() - i, 1int,
{
    match p_string(s, i) {
        None => None,
        Some(pk) => {
            let k = skip_ws(s, pk.1);
            if !(k < s.len() && s[k] == COLON) {
                return None;
            }
            let k2 = skip_ws(s, k + 1);
            match p_skip_value(s, k2) {
                None => None,
                Some(j2) => {
                    let k3 = skip_ws(s, j2);
                    if k3 < s.len() && s[k3] == RBRACE {
                        Some(k3 + 1)
                    } else if k3 < s.len() && s[k3] == COMMA {
                        let k4 = skip_ws(s, k3 + 1);
                        p_skip_members(s, k4)
                    } else {
                        None
                    }
                },
            }
        },
    }
}

/// Spec value of an optional byte vector.
spec fn opt_view(o: Option<Vec<u8>>) -> Option<Seq<u8>> {
    match o {
        Some(v) => Some(v@),
        None => None,
    }
}

fn p_entry_members(s: &Vec<u8>, i: usize, src: Option<Vec<u8>>, tgt: Option<Vec<u8>>) -> (r:
    Option<(Config, usize)>)
    requires
        i <= s@.len(),
    ensures
        match r {
            Some(p) => sp_entry_members(s@, i as int, opt_view(src), opt_view(tgt)) == Some(
                (p.0@, p.1 as int),
            ) && i < p.1 <= s@.len(),
            None => sp_entry_members(s@, i as int, opt_view(src), opt_view(tgt)) is None,
        },
    decreases s@.len() - i,
{
    let ghost sv = opt_view(src);
    let ghost tv = opt_view(tgt);
    match p_string(s, i) {
        None => None,
        Some(pk) => {
            let k = skip_ws(s, pk.1);
            if !(k < s.len() && s[k] == COLON) {
                return None;
            }
            let k2 = skip_ws(s, k + 1);
            let ks = key_source_vec();
            let kt = key_target_vec();
            let is_src = bytes_is(&pk.0, &ks);
            let is_tgt = bytes_is(&pk.0, &kt);
            let step: Option<(Option<Vec<u8>>, Option<Vec<u8>>, usize)> = if is_src {
                if src.is_some() {
                    None
                } else {
                    match p_string(s, k2) {
                        Some(pv) => Some((Some(pv.0), tgt, pv.1)),
                        None => None,
                    }
                }
            } else if is_tgt {
                if tgt.is_some() {
                    None
                } else {
                    match p_string(s, k2) {
                        Some(pv) => Some((src, Some(pv.0), pv.1)),
                        None => None,
                    }
                }
            } else {
                match p_skip_value(s, k2) {
                    Some(j2) => Some((src, tgt, j2)),
                    None => None,
                }
            };
            match step {
                None => None,
                Some(st) => {
                    let k3 = skip_ws(s, st.2);
                    if k3 < s.len() && s[k3] == RBRACE {
                        match (st.0, st.1) {
                            (Some(a), Some(b)) => Some((Config::new(a, b), k3 + 1)),
                            _ => None,
                        }
                    } else if k3 < s.len() && s[k3] == COMMA {
                        let k4 = skip_ws(s, k3 + 1);
                        p_entry_members(s, k4, st.0, st.1)
                    } else {
                        None
                    }
                },
            }
        },
    }
}

fn p_entry(s: &Vec<u8>, i: usize) -> (r: Option<(Config, usize)>)
    requires
        i <= s@.len(),
    ensures
        match r {
            Some(p) => sp_entry(s@, i as int) == Some((p.0@, p.1 as int)) && i < p.1
                <= s@.len(),
            None => sp_entry(s@, i as int) is None,
        },
{
    if !(i < s.len() && s[i] == LBRACE) {
        return None;
    }
    let k = skip_ws(s, i + 1);
    p_entry_members(s, k, None, None)
}

fn p_entries(s: &Vec<u8>, i: usize) -> (r: Option<(Vec<Config>, usize)>)
    requires
        i <= s@.len(),
    ensures
        match r {
            Some(p) => sp_entries(s@, i as int) == Some((views_of(p.0@), p.1 as int)) && i
                < p.1 <= s@.len(),
            None => sp_entries(s@, i as int) is None,
        },
    decreases s@.len() - i,
{
    match p_entry(s, i) {
        None => None,
        Some(pe) => {
            let e = pe.0;
            let k = skip_ws(s, pe.1);
            if k < s.len() && s[k] == RBRACKET {
                let mut l: Vec<Config> = Vec::new();
                let ghost ev = e@;
                l.push(e);
                proof {
                    assert(views_of(l@) =~= seq![ev]);
                }
                Some((l, k + 1))
            } else if k < s.len() && s[k] == COMMA {
                let k2 = skip_ws(s, k + 1);
                match p_entries(s, k2) {
                    None => None,
                    Some(pr) => {
                        let mut rest = pr.0;
                        if ConfigsDB::list_contains(&rest, &e) {
                            return None;
                        }
                        let ghost ev = e@;
                        let ghost restv = views_of(rest@);
                        rest.insert(0, e);
                        proof {
                            assert(views_of(rest@) =~= seq![ev] + restv);
                        }
                        Some((rest, pr.1))
                    },
                }
            } else {
                None
            }
        },
    }
}

fn p_list(s: &Vec<u8>, i: usize) -> (r: Option<(Vec<Config>, usize)>)
    requires
        i <= s@.len(),
    ensures
        match r {
            Some(p) => sp_list(s@, i as int) == Some((views_of(p.0@), p.1 as int)) && i < p.1
                <= s@.len(),
            None => sp_list(s@, i as int) is None,
        },
{
    if !(i < s.len() && s[i] == LBRACKET) {
        return None;
    }
    let k = skip_ws(s, i + 1);
    if k < s.len() && s[k] == RBRACKET {
        let l: Vec<Config> = Vec::new();
        proof {
            assert(views_of(l@) =~= Seq::<ConfigV>::empty());
        }
        Some((l, k + 1))
    } else {
        p_entries(s, k)
    }
}

/// Whether an association list already carries `name`.
fn pairs_has_name(m: &Vec<(Vec<u8>, Vec<Config>)>, name: &Vec<u8>) -> (r: bool)
    ensures
        r == crate::db::has_name(parts_view(m@), name@),
{
    let mut i: usize = 0;
    while i < m.len()
        invariant
            i <= m@.len(),
            forall|j: int| 0 <= j < i ==> parts_view(m@)[j].0 != name@,
        decreases m@.len() - i,
    {
        if bytes_is(&m[i].0, name) {
            proof {
                assert(parts_view(m@)[i as int].0 == name@);
            }
            return true;
        }
        i = i + 1;
    }
    false
}

fn p_pairs(s: &Vec<u8>, i: usize) -> (r: Option<(Vec<(Vec<u8>, Vec<Config>)>, usize)>)
    requires
        i <= s@.len(),
    ensures
        match r {
            Some(p) => sp_pairs(s@, i as int) == Some((parts_view(p.0@), p.1 as int)) && i
                < p.1 <= s@.len(),
            None => sp_pairs(s@, i as int) is None,
        },
    decreases s@.len() - i,
{
    match p_string(s, i) {
        None => None,
        Some(pn) => {
            let name = pn.0;
            let k = skip_ws(s, pn.1);
            if !(k < s.len() && s[k] == COLON) {
                return None;
            }
            let k2 = skip_ws(s, k + 1);
            match p_list(s, k2) {
                None => None,
                Some(pl) => {
                    let l = pl.0;
                    let k3 = skip_ws(s, pl.1);
                    if k3 < s.len() && s[k3] == RBRACE {
                        let mut m: Vec<(Vec<u8>, Vec<Config>)> = Vec::new();
                        let ghost nv = name@;
                        let ghost lv = views_of(l@);
                        m.push((name, l));
                        proof {
                            assert(parts_view(m@) =~~= seq![(nv, lv)]);
                        }
                        Some((m, k3 + 1))
                    } else if k3 < s.len() && s[k3] == COMMA {
                        let k4 = skip_ws(s, k3 + 1);
                        match p_pairs(s, k4) {
                            None => None,
                            Some(pr) => {
                                let mut rest = pr.0;
                                if pairs_has_name(&rest, &name) {
                                    return None;
                                }
                                let ghost nv = name@;
                                let ghost lv = views_of(l@);
                                let ghost restv = parts_view(rest@);
                                rest.insert(0, (name, l));
                                proof {
                                    assert(parts_view(rest@) =~~= seq![(nv, lv)] + restv);
                                }
                                Some((rest, pr.1))
                            },
                        }
                    } else {
                        None
                    }
                },
            }
        },
    }
}

fn p_cfg_map(s: &Vec<u8>, i: usize) -> (r: Option<(Vec<(Vec<u8>, Vec<Config>)>, usize)>)
    requires
        i <= s@.len(),
    ensures
        match r {
            Some(p) => sp_cfg_map(s@, i as int) == Some((parts_view(p.0@), p.1 as int)) && i
                < p.1 <= s@.len(),
            None => sp_cfg_map(s@, i as int) is None,
        },
{
    if !(i < s.len() && s[i] == LBRACE) {
        return None;
    }
    let k = skip_ws(s, i + 1);
    if k < s.len() && s[k] == RBRACE {
        let m: Vec<(Vec<u8>, Vec<Config>)> = Vec::new();
        proof {
            assert(parts_view(m@) =~= Seq::<(Seq<u8>, Seq<ConfigV>)>::empty());
        }
        Some((m, k + 1))
    } else {
        p_pairs(s, k)
    }
}

/// Spec value of an optional association list.
spec fn opt_map_view(o: Option<Vec<(Vec<u8>, Vec<Config>)>>) -> Option<DbMapV> {
    match o {
        Some(v) => Some(parts_view(v@)),
        None => None,
    }
}

fn p_db_members(
    s: &Vec<u8>,
    i: usize,
    ver: Option<u32>,
    cfg: Option<Vec<(Vec<u8>, Vec<Config>)>>,
) -> (r: Option<(u32, Vec<(Vec<u8>, Vec<Config>)>, usize)>)
    requires
        i <= s@.len(),
    ensures
        match r {
            Some(p) => sp_db_members(s@, i as int, ver, opt_map_view(cfg)) == Some(
                ((p.0, parts_view(p.1@)), p.2 as int),
            ) && i < p.2 <= s@.len(),
            None => sp_db_members(s@, i as int, ver, opt_map_view(cfg)) is None,
        },
    decreases s@.len() - i,
{
    let ghost cv = opt_map_view(cfg);
    match p_string(s, i) {
        None => None,
        Some(pk) => {
            let k = skip_ws(s, pk.1);
            if !(k < s.len() && s[k] == COLON) {
                return None;
            }
            let k2 = skip_ws(s, k + 1);
            let kv = key_version_vec();
            let kc = key_configs_vec();
            let is_ver = bytes_is(&pk.0, &kv);
            let is_cfg = bytes_is(&pk.0, &kc);
            let step: Option<(Option<u32>, Option<Vec<(Vec<u8>, Vec<Config>)>>, usize)> =
                if is_ver {
                if ver.is_some() {
                    None
                } else {
                    match p_num(s, k2) {
                        Some(pv) => Some((Some(pv.0), cfg, pv.1)),
                        None => None,
                    }
                }
            } else if is_cfg {
                if cfg.is_some() {
                    None
                } else {
                    match p_cfg_map(s, k2) {
                        Some(pm) => Some((ver, Some(pm.0), pm.1)),
                        None => None,
                    }
                }
            } else {
                match p_skip_value(s, k2) {
                    Some(j2) => Some((ver, cfg, j2)),
                    None => None,
                }
            };
            match step {
                None => None,
                Some(st) => {
                    let k3 = skip_ws(s, st.2);
                    if k3 < s.len() && s[k3] == RBRACE {
                        match (st.0, st.1) {
                            (Some(v), Some(m)) => Some((v, m, k3 + 1)),
                            _ => None,
                        }
                    } else if k3 < s.len() && s[k3] == COMMA {
                        let k4 = skip_ws(s, k3 + 1);
                        p_db_members(s, k4, st.0, st.1)
                    } else {
                        None
                    }
                },
            }
        },
    }
}

fn p_db(s: &Vec<u8>) -> (r: Option<(u32, Vec<(Vec<u8>, Vec<Config>)>)>)
    ensures
        match r {
            Some(p) => sp_db(s@) == Some((p.0, parts_view(p.1@))),
            None => sp_db(s@) is None,
        },
{
    let i0 = skip_ws(s, 0);
    if !(i0 < s.len() && s[i0] == LBRACE) {
        return None;
    }
    let i1 = skip_ws(s, i0 + 1);
    match p_db_members(s, i1, None, None) {
        None => None,
        Some(p) => {
            let i9 = skip_ws(s, p.2);
            if i9 == s.len() {
                Some((p.0, p.1))
            } else {
                None
            }
        },
    }
}

/// A parsed entry list never repeats an entry.
proof fn lemma_sp_entries_wf(s: Seq<u8>, i: int)
    requires
        sp_entries(s, i) is Some,
    ensures
        crate::db::no_dup_entries(sp_entries(s, i).unwrap().0),
    decreases s.len() - i,
{
    let (e, j) = sp_entry(s, i).unwrap();
    let k = sp_skip_ws(s, j);
    if 0 <= k < s.len() && s[k] == RBRACKET {
        let l = seq![e];
        assert(crate::db::no_dup_entries(l));
    } else {
        let k2 = sp_skip_ws(s, k + 1);
        lemma_sp_entries_wf(s, k2);
        let rest = sp_entries(s, k2).unwrap().0;
        let l = seq![e] + rest;
        assert forall|a: int, b: int| 0 <= a < b < l.len() implies l[a] != l[b] by {
            if a == 0 {
                assert(l[b] == rest[b - 1]);
                if l[0] == rest[b - 1] {
                    assert(rest.contains(e));
                }
            } else {
                assert(l[a] == rest[a - 1] && l[b] == rest[b - 1]);
            }
        }
    }
}

/// A parsed configs object has unique names and duplicate-free lists.
proof fn lemma_sp_pairs_wf(s: Seq<u8>, i: int)
    requires
        sp_pairs(s, i) is Some,
    ensures
        crate::db::wf_map(sp_pairs(s, i).unwrap().0),
    decreases s.len() - i,
{
    let (name, j) = sp_string(s, i).unwrap();
    let k = sp_skip_ws(s, j);
    let k2 = sp_skip_ws(s, k + 1);
    let (l, j2) = sp_list(s, k2).unwrap();
    if l.len() != 0 {
        let kk = sp_skip_ws(s, k2 + 1);
        if 0 <= kk < s.len() && s[kk] == RBRACKET {
        } else {
            lemma_sp_entries_wf(s, kk);
        }
    }
    assert(crate::db::no_dup_entries(l));
    let k3 = sp_skip_ws(s, j2);
    if 0 <= k3 < s.len() && s[k3] == RBRACE {
        let m = seq![(name, l)];
        assert(crate::db::wf_map(m));
    } else {
        let k4 = sp_skip_ws(s, k3 + 1);
        lemma_sp_pairs_wf(s, k4);
        let rest = sp_pairs(s, k4).unwrap().0;
        let m = seq![(name, l)] + rest;
        assert forall|a: int, b: int| 0 <= a < b < m.len() implies m[a].0 != m[b].0 by {
            if a == 0 {
                assert(m[b] == rest[b - 1]);
                if m[0].0 == rest[b - 1].0 {
                    assert(crate::db::has_name(rest, name));
                }
            } else {
                assert(m[a] == rest[a - 1] && m[b] == rest[b - 1]);
            }
        }
        assert forall|a: int| 0 <= a < m.len() implies crate::db::no_dup_entries(
            #[trigger] m[a].1,
        ) by {
            if a > 0 {
                assert(m[a] == rest[a - 1]);
            }
        }
    }
}

/// A parsed configs object satisfies the database invariant.
proof fn lemma_sp_cfg_map_wf(s: Seq<u8>, i: int)
    requires
        sp_cfg_map(s, i) is Some,
    ensures
        crate::db::wf_map(sp_cfg_map(s, i).unwrap().0),
{
    let k = sp_skip_ws(s, i + 1);
    if 0 <= k < s.len() && s[k] == RBRACE {
        assert(crate::db::wf_map(Seq::<(Seq<u8>, Seq<ConfigV>)>::empty()));
    } else {
        lemma_sp_pairs_wf(s, k);
    }
}

/// The mapping a member walk hands back satisfies the database invariant.
proof fn lemma_sp_db_members_wf(s: Seq<u8>, i: int, ver: Option<u32>, cfg: Option<DbMapV>)
    requires
        sp_db_members(s, i, ver, cfg) is Some,
        cfg is Some ==> crate::db::wf_map(cfg.unwrap()),
    ensures
        crate::db::wf_map(sp_db_members(s, i, ver, cfg).unwrap().0.1),
    decreases s.len() - i,
{
    let (key, j) = sp_string(s, i).unwrap();
    let k = sp_skip_ws(s, j);
    let k2 = sp_skip_ws(s, k + 1);
    if key == key_version() {
        let (v, j2) = sp_num(s, k2).unwrap();
        let k3 = sp_skip_ws(s, j2);
        if !(0 <= k3 < s.len() && s[k3] == RBRACE) {
            let k4 = sp_skip_ws(s, k3 + 1);
            lemma_sp_db_members_wf(s, k4, Some(v), cfg);
        }
    } else if key == key_configs() {
        let (m, j2) = sp_cfg_map(s, k2).unwrap();
        lemma_sp_cfg_map_wf(s, k2);
        let k3 = sp_skip_ws(s, j2);
        if !(0 <= k3 < s.len() && s[k3] == RBRACE) {
            let k4 = sp_skip_ws(s, k3 + 1);
            lemma_sp_db_members_wf(s, k4, ver, Some(m));
        }
    } else {
        let j2 = sp_skip_value(s, k2).unwrap();
        let k3 = sp_skip_ws(s, j2);
        if !(0 <= k3 < s.len() && s[k3] == RBRACE) {
            let k4 = sp_skip_ws(s, k3 + 1);
            lemma_sp_db_members_wf(s, k4, ver, cfg);
        }
    }
}

/// A parsed database document satisfies the database invariant.
pub proof fn lemma_sp_db_wf(s: Seq<u8>)
    requires
        sp_db(s) is Some,
    ensures
        crate::db::wf_map(sp_db(s).unwrap().1),
{
    let i0 = sp_skip_ws(s, 0);
    let i1 = sp_skip_ws(s, i0 + 1);
    lemma_sp_db_members_wf(s, i1, None, None);
}

impl ConfigsDB {
    /// Deserialize a database document. Succeeds exactly on the documents
    /// the grammar `sp_db` accepts, and then returns the database those
    /// bytes denote; anything else is a `ParseError`.
    pub fn from_json(s: &Vec<u8>) -> (r: Result<ConfigsDB, crate::db::CoreError>)
        ensures
            match sp_db(s@) {
                Some(p) => r matches Ok(db) && db@ == p.1 && db.spec_version() == p.0
                    && db.wf(),
                None => r matches Err(e) && e == crate::db::CoreError::ParseError,
            },
    {
        match p_db(s) {
            Some(p) => {
                proof {
                    lemma_sp_db_wf(s@);
                }
                Ok(ConfigsDB::from_parts(p.0, p.1))
            },
            None => Err(crate::db::CoreError::ParseError),
        }
    }

    /// Serialize the whole database to its canonical pretty JSON document.
    pub fn to_json(&self) -> (r: Vec<u8>)
        ensures
            r@ == ser_db(self.spec_version(), self@),
    {
        let mut out: Vec<u8> = Vec::new();
        out.push(LBRACE);
        push_nl_ind(&mut out, 2);
        let kv = key_version_vec();
        push_qstr(&mut out, &kv);
        out.push(COLON);
        out.push(SPACE);
        push_dec(&mut out, self.version());
        out.push(COMMA);
        push_nl_ind(&mut out, 2);
        let kc = key_configs_vec();
        push_qstr(&mut out, &kc);
        out.push(COLON);
        out.push(SPACE);
        push_cfg_map(&mut out, self.parts());
        push_nl_ind(&mut out, 0);
        out.push(RBRACE);
        proof {
            assert(out@ =~= ser_db(self.spec_version(), self@));
        }
        out
    }
}

} // verus!
