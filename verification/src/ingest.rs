//! Ingestion: turning a user-supplied path into a registered entry, and the
//! laws governing bulk registration of a directory's files.

use vstd::prelude::*;
use crate::db::Config;
use crate::db::ConfigV;
use crate::db::ConfigsDB;
use crate::db::CoreError;
use crate::db::DbMapV;
use crate::db::clone_bytes;
use crate::db::entries_of;
use crate::db::has_name;
use crate::db::no_dup_entries;
use crate::db::spec_add;
use crate::db::wf_map;
use crate::db::lemma_add_preserves_wf;
use crate::db::lemma_add_frame;
use crate::db::lemma_add_registers;
use crate::json::sp_db;

verus! {

/// Path separator.
pub const SLASH: u8 = 47;

/// The path without its trailing separators.
pub open spec fn strip_slashes(s: Seq<u8>) -> Seq<u8>
    decreases s.len(),
{
    if s.len() > 0 && s.last() == SLASH {
        strip_slashes(s.drop_last())
    } else {
        s
    }
}

/// The longest separator-free suffix of a path.
pub open spec fn suffix_after_slash(s: Seq<u8>) -> Seq<u8>
    decreases s.len(),
{
    if s.len() == 0 {
        Seq::empty()
    } else if s.last() == SLASH {
        Seq::empty()
    } else {
        suffix_after_slash(s.drop_last()).push(s.last())
    }
}

/// The filename component of a path: the last component, ignoring trailing
/// separators; absent when the path is a root, empty, or ends in the current
/// or parent directory.
pub open spec fn spec_file_name(s: Seq<u8>) -> Option<Seq<u8>> {
    let c = suffix_after_slash(strip_slashes(s));
    if c.len() == 0 || c == seq![46u8] || c == seq![46u8, 46u8] {
        None
    } else {
        Some(c)
    }
}

/// Where a file named `fname` is stored for configuration `name`.
pub open spec fn spec_source_path(store: Seq<u8>, name: Seq<u8>, fname: Seq<u8>) -> Seq<u8> {
    store + seq![SLASH] + name + seq![SLASH] + fname
}

/// The filename component of `path`, executable form.
pub fn file_name(path: &Vec<u8>) -> (r: Option<Vec<u8>>)
    ensures
        match r {
            Some(v) => spec_file_name(path@) == Some(v@),
            None => spec_file_name(path@) is None,
        },
{
    let mut e: usize = path.len();
    proof {
        assert(path@.take(path@.len() as int) =~= path@);
    }
    while e > 0 && path[e - 1] == SLASH
        invariant
            e <= path@.len(),
            strip_slashes(path@) == strip_slashes(path@.take(e as int)),
        decreases e,
    {
        proof {
            assert(path@.take(e as int).last() == path@[e - 1]);
            assert(path@.take(e as int).drop_last() =~= path@.take(e - 1));
        }
        e = e - 1;
    }
    proof {
        assert(path@.take(path@.len() as int) =~= path@);
        if e > 0 {
            assert(path@.take(e as int).last() == path@[e - 1]);
        }
        assert(strip_slashes(path@) == path@.take(e as int));
    }
    let ghost t = path@.take(e as int);
    let mut s: usize = e;
    while s > 0 && path[s - 1] != SLASH
        invariant
            s <= e <= path@.len(),
            t == path@.take(e as int),
            suffix_after_slash(t) =~= suffix_after_slash(path@.take(s as int)) + path@.subrange(
                s as int,
                e as int,
            ),
        decreases s,
    {
        proof {
            assert(path@.take(s as int).last() == path@[s - 1]);
            assert(path@.take(s as int).drop_last() =~= path@.take(s - 1));
            assert(suffix_after_slash(path@.take(s as int)) == suffix_after_slash(
                path@.take(s - 1),
            ).push(path@[s - 1]));
            assert(suffix_after_slash(path@.take(s - 1)) + path@.subrange(s - 1, e as int)
                =~= suffix_after_slash(path@.take(s as int)) + path@.subrange(
                s as int,
                e as int,
            ));
        }
        s = s - 1;
    }
    proof {
        if s > 0 {
            assert(path@.take(s as int).last() == path@[s - 1]);
        }
        assert(suffix_after_slash(path@.take(s as int)) =~= Seq::<u8>::empty());
        assert(suffix_after_slash(t) =~= path@.subrange(s as int, e as int));
    }
    let mut c: Vec<u8> = Vec::new();
    let mut k: usize = s;
    while k < e
        invariant
            s <= k <= e <= path@.len(),
            c@ == path@.subrange(s as int, k as int),
        decreases e - k,
    {
        c.push(path[k]);
        k = k + 1;
        proof {
            assert(c@ =~= path@.subrange(s as int, k as int));
        }
    }
    if c.len() == 0 {
        return None;
    }
    if c.len() == 1 && c[0] == 46 {
        proof {
            assert(c@ =~= seq![46u8]);
        }
        return None;
    }
    if c.len() == 2 && c[0] == 46 && c[1] == 46 {
        proof {
            assert(c@ =~= seq![46u8, 46u8]);
        }
        return None;
    }
    proof {
        assert(c@.len() == 1 && c@[0] == 46 ==> c@ =~= seq![46u8]);
        assert(c@.len() == 2 && c@[0] == 46 && c@[1] == 46 ==> c@ =~= seq![46u8, 46u8]);
    }
    Some(c)
}

/// `store/name/fname`, the canonical location of a stored copy.
pub fn source_path(store: &Vec<u8>, name: &Vec<u8>, fname: &Vec<u8>) -> (r: Vec<u8>)
    ensures
        r@ == spec_source_path(store@, name@, fname@),
{
    let mut out = clone_bytes(store);
    out.push(SLASH);
    let mut i: usize = 0;
    while i < name.len()
        invariant
            i <= name@.len(),
            out@ == store@ + seq![SLASH] + name@.take(i as int),
        decreases name@.len() - i,
    {
        out.push(name[i]);
        i = i + 1;
        proof {
            assert(out@ =~= store@ + seq![SLASH] + name@.take(i as int));
        }
    }
    proof {
        assert(name@.take(name@.len() as int) =~= name@);
    }
    out.push(SLASH);
    let mut j: usize = 0;
    while j < fname.len()
        invariant
            j <= fname@.len(),
            out@ == store@ + seq![SLASH] + name@ + seq![SLASH] + fname@.take(j as int),
        decreases fname@.len() - j,
    {
        out.push(fname[j]);
        j = j + 1;
        proof {
            assert(out@ =~= store@ + seq![SLASH] + name@ + seq![SLASH] + fname@.take(
                j as int,
            ));
        }
    }
    proof {
        assert(fname@.take(fname@.len() as int) =~= fname@);
        assert(out@ =~= spec_source_path(store@, name@, fname@));
    }
    out
}

/// Register one file under `name`: the stored copy's path is derived from
/// the store directory, the name, and the file's filename component, and the
/// (source, target) pair is recorded in the database. Rejects a target path
/// with no usable filename component, leaving the database untouched.
pub fn register_file(db: &mut ConfigsDB, name: &Vec<u8>, target: &Vec<u8>, store_dir: &Vec<u8>)
    -> (r: Result<Config, CoreError>)
    requires
        old(db).wf(),
    ensures
        final(db).wf(),
        final(db).spec_version() == old(db).spec_version(),
        match spec_file_name(target@) {
            Some(f) => {
                let e = ConfigV {
                    source: spec_source_path(store_dir@, name@, f),
                    target: target@,
                };
                &&& r matches Ok(c) && c@ == e
                &&& final(db)@ == spec_add(old(db)@, name@, e)
            },
            None => r matches Err(err) && err == CoreError::InvalidInput && final(db)@ == old(
                db,
            )@,
        },
{
    match file_name(target) {
        None => Err(CoreError::InvalidInput),
        Some(fname) => {
            let source = source_path(store_dir, name, &fname);
            let c = Config::new(clone_bytes(&source), clone_bytes(target));
            db.add_config(clone_bytes(name), source, clone_bytes(target));
            Ok(c)
        },
    }
}

/// Create the database a fresh run starts from: the parsed persisted
/// document when one exists, the empty database otherwise.
pub fn initialize(persisted: Option<Vec<u8>>) -> (r: Result<ConfigsDB, CoreError>)
    ensures
        match persisted {
            None => r matches Ok(db) && db@ == Seq::<(Seq<u8>, Seq<ConfigV>)>::empty()
                && db.spec_version() == crate::db::CONFIGS_DB_VERSION && db.wf(),
            Some(bytes) => match sp_db(bytes@) {
                Some(p) => r matches Ok(db) && db@ == p.1 && db.spec_version() == p.0
                    && db.wf(),
                None => r matches Err(e) && e == CoreError::ParseError,
            },
        },
{
    match persisted {
        None => Ok(ConfigsDB::default()),
        Some(bytes) => ConfigsDB::from_json(&bytes),
    }
}

/// The database after registering each of `es` under `name`, in order; one
/// registration per discovered file.
pub open spec fn spec_add_all(m: DbMapV, name: Seq<u8>, es: Seq<ConfigV>) -> DbMapV
    decreases es.len(),
{
    if es.len() == 0 {
        m
    } else {
        spec_add_all(spec_add(m, name, es[0]), name, es.drop_first())
    }
}

/// Registering a batch extends the name's existing list by exactly the
/// batch, when the batch has no repeats and nothing already registered.
pub proof fn lemma_add_all_extends(m: DbMapV, name: Seq<u8>, es: Seq<ConfigV>, l0: Seq<ConfigV>)
    requires
        wf_map(m),
        entries_of(m, name) == Some(l0),
        no_dup_entries(es),
        forall|k: int| 0 <= k < es.len() ==> !l0.contains(#[trigger] es[k]),
    ensures
        wf_map(spec_add_all(m, name, es)),
        entries_of(spec_add_all(m, name, es), name) == Some(l0 + es),
        forall|other: Seq<u8>| other != name ==> entries_of(
            spec_add_all(m, name, es),
            other,
        ) == entries_of(m, other),
    decreases es.len(),
{
    if es.len() == 0 {
        assert(l0 + es =~= l0);
    } else {
        let e = es[0];
        let m1 = spec_add(m, name, e);
        lemma_add_preserves_wf(m, name, e);
        lemma_add_registers(m, name, e);
        assert(!l0.contains(e));
        assert(entries_of(m1, name) == Some(l0.push(e)));
        let l1 = l0.push(e);
        let rest = es.drop_first();
        assert(no_dup_entries(rest)) by {
            assert(forall|a: int, b: int| 0 <= a < b < rest.len() ==> rest[a] == es[a + 1]
                && rest[b] == es[b + 1]);
        }
        assert forall|k: int| 0 <= k < rest.len() implies !l1.contains(#[trigger] rest[k]) by {
            assert(rest[k] == es[k + 1]);
            if l1.contains(es[k + 1]) {
                let w = choose|w: int| 0 <= w < l1.len() && l1[w] == es[k + 1];
                if w < l0.len() {
                    assert(l0.contains(es[k + 1]));
                } else {
                    assert(es[0] == es[k + 1]);
                }
            }
        }
        lemma_add_all_extends(m1, name, rest, l1);
        assert(l1 + rest =~= l0 + es);
        assert forall|other: Seq<u8>| other != name implies entries_of(
            spec_add_all(m, name, es),
            other,
        ) == entries_of(m, other) by {
            lemma_add_frame(m, name, e, other);
        }
    }
}

/// Directory ingestion completeness: registering a batch of distinct
/// entries under a fresh name yields exactly that batch, one entry per
/// file, and touches no other name.
pub proof fn lemma_ingestion_completeness(m: DbMapV, name: Seq<u8>, es: Seq<ConfigV>)
    requires
        wf_map(m),
        !has_name(m, name),
        no_dup_entries(es),
        es.len() >= 1,
    ensures
        wf_map(spec_add_all(m, name, es)),
        entries_of(spec_add_all(m, name, es), name) == Some(es),
        forall|other: Seq<u8>| other != name ==> entries_of(
            spec_add_all(m, name, es),
            other,
        ) == entries_of(m, other),
{
    let e = es[0];
    let m1 = spec_add(m, name, e);
    lemma_add_preserves_wf(m, name, e);
    lemma_add_registers(m, name, e);
    assert(entries_of(m1, name) == Some(seq![e]));
    let rest = es.drop_first();
    assert(no_dup_entries(rest)) by {
        assert(forall|a: int, b: int| 0 <= a < b < rest.len() ==> rest[a] == es[a + 1]
            && rest[b] == es[b + 1]);
    }
    assert forall|k: int| 0 <= k < rest.len() implies !seq![e].contains(
        #[trigger] rest[k],
    ) by {
        assert(rest[k] == es[k + 1]);
        if seq![e].contains(es[k + 1]) {
            assert(es[0] == es[k + 1]);
        }
    }
    lemma_add_all_extends(m1, name, rest, seq![e]);
    assert(seq![e] + rest =~= es);
    assert forall|other: Seq<u8>| other != name implies entries_of(
        spec_add_all(m, name, es),
        other,
    ) == entries_of(m, other) by {
        lemma_add_frame(m, name, e, other);
    }
}

/// Failure isolation: a batch registration reaches the state after any
/// prefix first, so when file `k` of a directory walk fails, the database
/// persisted after the first `k - 1` files already holds exactly those
/// entries, and a query finds them.
pub proof fn lemma_failure_isolation(m: DbMapV, name: Seq<u8>, es: Seq<ConfigV>, k: int)
    requires
        wf_map(m),
        !has_name(m, name),
        no_dup_entries(es),
        1 <= k <= es.len(),
    ensures
        spec_add_all(m, name, es) == spec_add_all(
            spec_add_all(m, name, es.take(k)),
            name,
            es.skip(k),
        ),
        entries_of(spec_add_all(m, name, es.take(k)), name) == Some(es.take(k)),
        wf_map(spec_add_all(m, name, es.take(k))),
    decreases k,
{
    let t = es.take(k);
    assert(no_dup_entries(t)) by {
        assert(forall|a: int, b: int| 0 <= a < b < t.len() ==> t[a] == es[a] && t[b] == es[b]);
    }
    lemma_ingestion_completeness(m, name, t);
    lemma_add_all_split(m, name, es, k);
}

/// A batch registration is its prefix's registration followed by the
/// remainder's.
proof fn lemma_add_all_split(m: DbMapV, name: Seq<u8>, es: Seq<ConfigV>, k: int)
    requires
        0 <= k <= es.len(),
    ensures
        spec_add_all(m, name, es) == spec_add_all(
            spec_add_all(m, name, es.take(k)),
            name,
            es.skip(k),
        ),
    decreases k,
{
    if k == 0 {
        assert(es.take(0) =~= Seq::<ConfigV>::empty());
        assert(es.skip(0) =~= es);
    } else {
        let m1 = spec_add(m, name, es[0]);
        let rest = es.drop_first();
        lemma_add_all_split(m1, name, rest, k - 1);
        assert(rest.take(k - 1) =~= es.take(k).drop_first());
        assert(rest.skip(k - 1) =~= es.skip(k));
        assert(es.take(k)[0] == es[0]);
        assert(spec_add_all(m, name, es.take(k)) == spec_add_all(m1, name, rest.take(k - 1)));
    }
}

} // verus!
