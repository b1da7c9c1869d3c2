//! The configuration database: a durable mapping from configuration name to
//! an ordered list of tracked entries, with idempotent insertion.

use vstd::prelude::*;

verus! {

/// Schema tag written into every freshly created database.
pub const CONFIGS_DB_VERSION: u32 = 0;

/// Errors surfaced by the library's core operations.
#[derive(PartialEq, Eq, Structural, Clone, Copy, Debug)]
pub enum CoreError {
    /// An expected file was absent.
    NotFound,
    /// A database document exists but does not follow the schema.
    ParseError,
    /// A system-level file operation failed.
    IoError,
    /// A supplied path has no usable filename component.
    InvalidInput,
}

/// A tracked configuration file: where its canonical copy is stored
/// (`source`) and where the user-facing file lives (`target`).
pub struct Config {
    pub(crate) source: Vec<u8>,
    pub(crate) target: Vec<u8>,
}

/// Mathematical value of a `Config`: the pair of path byte strings.
pub ghost struct ConfigV {
    pub source: Seq<u8>,
    pub target: Seq<u8>,
}

impl View for Config {
    type V = ConfigV;

    closed spec fn view(&self) -> ConfigV {
        ConfigV { source: self.source@, target: self.target@ }
    }
}

impl Config {
    /// Pair a stored path with the original location it aliases.
    pub fn new(source: Vec<u8>, target: Vec<u8>) -> (r: Config)
        ensures
            r@ == (ConfigV { source: source@, target: target@ }),
    {
        Config { source, target }
    }

    /// Path inside the central store where the content canonically lives.
    pub fn source(&self) -> (r: &Vec<u8>)
        ensures
            r@ == self@.source,
    {
        &self.source
    }

    /// Path at the file's original, user-facing location.
    pub fn target(&self) -> (r: &Vec<u8>)
        ensures
            r@ == self@.target,
    {
        &self.target
    }

    /// Structural duplicate of this entry.
    pub fn duplicate(&self) -> (r: Config)
        ensures
            r@ == self@,
    {
        Config { source: clone_bytes(&self.source), target: clone_bytes(&self.target) }
    }
}

/// Byte-for-byte copy of a byte vector.
pub fn clone_bytes(v: &Vec<u8>) -> (r: Vec<u8>)
    ensures
        r@ == v@,
{
    let mut out: Vec<u8> = Vec::new();
    let mut i: usize = 0;
    while i < v.len()
        invariant
            i <= v.len(),
            out@ == v@.take(i as int),
        decreases v.len() - i,
    {
        out.push(v[i]);
        i = i + 1;
        proof {
            assert(out@ =~= v@.take(i as int));
        }
    }
    proof {
        assert(v@.take(v.len() as int) =~= v@);
    }
    out
}

/// The entry views of a list of entries, in order.
pub open spec fn views_of(s: Seq<Config>) -> Seq<ConfigV> {
    s.map_values(|c: Config| c@)
}

/// Abstract database content: the (name, entry list) association sequence.
pub type DbMapV = Seq<(Seq<u8>, Seq<ConfigV>)>;

/// The abstract content carried by a concrete association list.
pub open spec fn parts_view(s: Seq<(Vec<u8>, Vec<Config>)>) -> DbMapV {
    s.map_values(|p: (Vec<u8>, Vec<Config>)| (p.0@, views_of(p.1@)))
}

/// Whether some association carries `name`.
pub open spec fn has_name(m: DbMapV, name: Seq<u8>) -> bool {
    exists|i: int| 0 <= i < m.len() && m[i].0 == name
}

/// The index of the association carrying `name` (unique under `wf_map`).
pub open spec fn name_idx(m: DbMapV, name: Seq<u8>) -> int {
    choose|i: int| 0 <= i < m.len() && m[i].0 == name
}

/// The entry list registered under `name`, if any.
pub open spec fn entries_of(m: DbMapV, name: Seq<u8>) -> Option<Seq<ConfigV>> {
    if has_name(m, name) {
        Some(m[name_idx(m, name)].1)
    } else {
        None
    }
}

/// No two associations share a name.
pub open spec fn distinct_names(m: DbMapV) -> bool {
    forall|i: int, j: int| 0 <= i < j < m.len() ==> m[i].0 != m[j].0
}

/// No structurally equal entry appears twice in one list.
pub open spec fn no_dup_entries(l: Seq<ConfigV>) -> bool {
    forall|i: int, j: int| 0 <= i < j < l.len() ==> l[i] != l[j]
}

/// Database invariant: names are unique and every list is duplicate-free.
pub open spec fn wf_map(m: DbMapV) -> bool {
    &&& distinct_names(m)
    &&& forall|i: int| 0 <= i < m.len() ==> no_dup_entries(#[trigger] m[i].1)
}

/// The one mutation of the database: register `e` under `name`, appending it
/// only if no structurally equal entry is already in that name's list, and
/// creating the association at the end if the name is new.
pub open spec fn spec_add(m: DbMapV, name: Seq<u8>, e: ConfigV) -> DbMapV {
    if !has_name(m, name) {
        m.push((name, seq![e]))
    } else {
        let i = name_idx(m, name);
        if m[i].1.contains(e) {
            m
        } else {
            m.update(i, (m[i].0, m[i].1.push(e)))
        }
    }
}

/// All registered entries, flattened in association order.
pub open spec fn all_entries(m: DbMapV) -> Seq<ConfigV>
    decreases m.len(),
{
    if m.len() == 0 {
        Seq::empty()
    } else {
        all_entries(m.drop_last()) + m.last().1
    }
}

/// The database: a schema version and the name-to-entries mapping.
pub struct ConfigsDB {
    version: u32,
    configs: Vec<(Vec<u8>, Vec<Config>)>,
}

impl View for ConfigsDB {
    type V = DbMapV;

    closed spec fn view(&self) -> DbMapV {
        parts_view(self.configs@)
    }
}

impl Default for ConfigsDB {
    /// An empty database with the current schema version.
    fn default() -> (r: ConfigsDB)
        ensures
            r@ == Seq::<(Seq<u8>, Seq<ConfigV>)>::empty(),
            r.spec_version() == CONFIGS_DB_VERSION,
            r.wf(),
    {
        let r = ConfigsDB { version: CONFIGS_DB_VERSION, configs: Vec::new() };
        proof {
            assert(r@ =~= Seq::<(Seq<u8>, Seq<ConfigV>)>::empty());
        }
        r
    }
}

impl ConfigsDB {
    /// Database invariant; holds of every value the library hands out.
    pub open spec fn wf(&self) -> bool {
        wf_map(self@)
    }

    /// The schema tag this database was created with.
    pub closed spec fn spec_version(&self) -> u32 {
        self.version
    }

    /// Assemble a database from raw parts; used by the persistence layer.
    pub(crate) fn from_parts(version: u32, configs: Vec<(Vec<u8>, Vec<Config>)>) -> (r:
        ConfigsDB)
        ensures
            r.spec_version() == version,
            r@ == parts_view(configs@),
    {
        ConfigsDB { version, configs }
    }

    /// The schema tag, executable form.
    pub fn version(&self) -> (r: u32)
        ensures
            r == self.spec_version(),
    {
        self.version
    }

    /// Read-only access to the association list; used by the persistence layer.
    pub(crate) fn parts(&self) -> (r: &Vec<(Vec<u8>, Vec<Config>)>)
        ensures
            parts_view(r@) == self@,
    {
        &self.configs
    }

    /// Index of the association carrying `name`, if any.
    fn find_name(&self, name: &Vec<u8>) -> (r: Option<usize>)
        ensures
            match r {
                Some(i) => i < self@.len() && self@[i as int].0 == name@,
                None => !has_name(self@, name@),
            },
    {
        let mut i: usize = 0;
        let n = self.configs.len();
        while i < n
            invariant
                n == self@.len(),
                i <= n,
                forall|j: int| 0 <= j < i ==> self@[j].0 != name@,
            decreases n - i,
        {
            if &self.configs[i].0 == name {
                proof {
                    assert(self@[i as int].0 == self.configs@[i as int].0@);
                }
                return Some(i);
            }
            i = i + 1;
        }
        None
    }

    /// Whether `list` already holds an entry structurally equal to `c`.
    pub(crate) fn list_contains(list: &Vec<Config>, c: &Config) -> (r: bool)
        ensures
            r == views_of(list@).contains(c@),
    {
        let mut i: usize = 0;
        let n = list.len();
        while i < n
            invariant
                n == list@.len(),
                i <= n,
                forall|j: int| 0 <= j < i ==> views_of(list@)[j] != c@,
            decreases n - i,
        {
            if &list[i].source == &c.source && &list[i].target == &c.target {
                proof {
                    assert(list@[i as int]@.source =~= c@.source);
                    assert(list@[i as int]@.target =~= c@.target);
                    assert(views_of(list@)[i as int] == c@);
                }
                return true;
            }
            i = i + 1;
        }
        proof {
            assert(forall|j: int|
                0 <= j < views_of(list@).len() ==> views_of(list@)[j] != c@);
        }
        false
    }

    /// Register one entry under `name`: looks up or creates the list for the
    /// name and appends the (source, target) pair only if no structurally
    /// equal entry is already there. Idempotent: repeating a registration
    /// leaves the database unchanged.
    pub fn add_config(&mut self, name: Vec<u8>, source: Vec<u8>, target: Vec<u8>)
        requires
            old(self).wf(),
        ensures
            final(self).wf(),
            final(self)@ == spec_add(
                old(self)@,
                name@,
                ConfigV { source: source@, target: target@ },
            ),
            final(self).spec_version() == old(self).spec_version(),
    {
        let config = Config { source, target };
        let ghost m = self@;
        let ghost e = config@;
        match self.find_name(&name) {
            Some(i) => {
                proof {
                    assert(has_name(m, name@));
                    let k = name_idx(m, name@);
                    assert(0 <= k < m.len() && m[k].0 == name@);
                    assert(k == i) by {
                        if k != i {
                            assert(m[k].0 == m[i as int].0);
                        }
                    }
                }
                if Self::list_contains(&self.configs[i].1, &config) {
                    proof {
                        assert(m[i as int].1.contains(e));
                        assert(final(self)@ == spec_add(m, name@, e));
                    }
                } else {
                    let pair = &mut self.configs[i];
                    pair.1.push(config);
                    proof {
                        let li = m[i as int].1;
                        assert(self@ =~~= m.update(i as int, (m[i as int].0, li.push(e))));
                        assert(self@ == spec_add(m, name@, e));
                        lemma_add_preserves_wf(m, name@, e);
                    }
                }
            },
            None => {
                let mut l: Vec<Config> = Vec::new();
                l.push(config);
                self.configs.push((name, l));
                proof {
                    assert(views_of(l@) =~= seq![e]);
                    assert(self@ =~~= m.push((name@, seq![e])));
                    lemma_add_preserves_wf(m, name@, e);
                }
            },
        }
    }

    /// The entries registered under `name`, or `None` for an unknown name.
    pub fn get_configs(&self, name: &Vec<u8>) -> (r: Option<&Vec<Config>>)
        requires
            self.wf(),
        ensures
            match r {
                Some(l) => entries_of(self@, name@) == Some(views_of(l@)),
                None => entries_of(self@, name@) is None,
            },
    {
        match self.find_name(name) {
            Some(i) => {
                proof {
                    assert(has_name(self@, name@));
                    let k = name_idx(self@, name@);
                    assert(k == i) by {
                        if k != i {
                            assert(self@[k].0 == self@[i as int].0);
                        }
                    }
                }
                Some(&self.configs[i].1)
            },
            None => None,
        }
    }

    /// Every registered entry, flattened: per-name order is the registration
    /// order, names come in association order.
    pub fn get_all_configs(&self) -> (r: Vec<Config>)
        ensures
            views_of(r@) == all_entries(self@),
    {
        let mut out: Vec<Config> = Vec::new();
        let mut i: usize = 0;
        let n = self.configs.len();
        while i < n
            invariant
                n == self@.len(),
                i <= n,
                views_of(out@) == all_entries(self@.take(i as int)),
            decreases n - i,
        {
            let mut j: usize = 0;
            let m = self.configs[i].1.len();
            while j < m
                invariant
                    i < n,
                    n == self@.len(),
                    m == self@[i as int].1.len(),
                    j <= m,
                    views_of(out@) == all_entries(self@.take(i as int)) + self@[
                        i as int
                    ].1.take(j as int),
                decreases m - j,
            {
                let ghost prev = views_of(out@);
                let c = self.configs[i].1[j].duplicate();
                proof {
                    assert(c@ == self@[i as int].1[j as int]);
                }
                out.push(c);
                proof {
                    let ghost l = self@[i as int].1;
                    assert(views_of(out@) =~~= prev.push(l[j as int]));
                    assert(prev.push(l[j as int]) =~~= all_entries(self@.take(i as int))
                        + l.take(j + 1));
                }
                j = j + 1;
            }
            i = i + 1;
            proof {
                let t = self@.take(i as int);
                assert(t.drop_last() =~= self@.take(i - 1));
                assert(t.last() == self@[i - 1]);
                assert(self@[i - 1].1.take(m as int) =~= self@[i - 1].1);
                assert(views_of(out@) == all_entries(self@.take(i as int)));
            }
        }
        proof {
            assert(self@.take(n as int) =~= self@);
        }
        out
    }
}

/// Registration preserves the database invariant.
pub proof fn lemma_add_preserves_wf(m: DbMapV, name: Seq<u8>, e: ConfigV)
    requires
        wf_map(m),
    ensures
        wf_map(spec_add(m, name, e)),
{
    let m2 = spec_add(m, name, e);
    if !has_name(m, name) {
        assert forall|i: int, j: int| 0 <= i < j < m2.len() implies m2[i].0 != m2[j].0 by {
            if j == m.len() {
                assert(m2[j].0 == name);
                assert(m[i].0 != name) by {
                    if m[i].0 == name {
                        assert(has_name(m, name));
                    }
                }
            }
        }
        assert(no_dup_entries(seq![e]));
        assert(forall|i: int| 0 <= i < m2.len() ==> no_dup_entries(#[trigger] m2[i].1));
    } else {
        let k = name_idx(m, name);
        if m[k].1.contains(e) {
        } else {
            assert forall|i: int| 0 <= i < m2.len() implies no_dup_entries(
                #[trigger] m2[i].1,
            ) by {
                if i == k {
                    let l2 = m[k].1.push(e);
                    assert forall|a: int, b: int| 0 <= a < b < l2.len() implies l2[a]
                        != l2[b] by {
                        if b == m[k].1.len() {
                            assert(l2[b] == e);
                            assert(!m[k].1.contains(e));
                            assert(m[k].1[a] != e) by {
                                if m[k].1[a] == e {
                                    assert(m[k].1.contains(e));
                                }
                            }
                        }
                    }
                }
            }
        }
    }
}

/// Registering under one name leaves every other name's entries untouched.
pub proof fn lemma_add_frame(m: DbMapV, name: Seq<u8>, e: ConfigV, other: Seq<u8>)
    requires
        wf_map(m),
        other != name,
    ensures
        entries_of(spec_add(m, name, e), other) == entries_of(m, other),
{
    let m2 = spec_add(m, name, e);
    if has_name(m, other) {
        let k = name_idx(m, other);
        assert(0 <= k < m.len() && m[k].0 == other);
        assert(m2[k].0 == other && m2[k].1 == m[k].1) by {
            if !has_name(m, name) {
            } else {
                let i = name_idx(m, name);
                assert(m[i].0 == name);
                assert(i != k);
            }
        }
        assert(has_name(m2, other));
        let k2 = name_idx(m2, other);
        assert(k2 == k) by {
            lemma_add_preserves_wf(m, name, e);
            if k2 != k {
                assert(m2[k2].0 == m2[k].0);
            }
        }
    } else {
        if has_name(m2, other) {
            let k2 = name_idx(m2, other);
            assert(0 <= k2 < m2.len() && m2[k2].0 == other);
            if !has_name(m, name) {
                if k2 < m.len() {
                    assert(m[k2].0 == other);
                } else {
                    assert(m2[k2].0 == name);
                }
            } else {
                assert(m2[k2].0 == m[k2].0);
            }
            assert(false);
        }
    }
}

/// After registration, the name is present and carries the entry.
pub proof fn lemma_add_registers(m: DbMapV, name: Seq<u8>, e: ConfigV)
    requires
        wf_map(m),
    ensures
        has_name(spec_add(m, name, e), name),
        entries_of(spec_add(m, name, e), name) matches Some(l) && l.contains(e),
        entries_of(spec_add(m, name, e), name) matches Some(l) ==> match entries_of(
            m,
            name,
        ) {
            Some(l0) => l == if l0.contains(e) {
                l0
            } else {
                l0.push(e)
            },
            None => l == seq![e],
        },
{
    let m2 = spec_add(m, name, e);
    lemma_add_preserves_wf(m, name, e);
    if !has_name(m, name) {
        let n = m.len() as int;
        assert(m2[n].0 == name);
        assert(has_name(m2, name));
        let k2 = name_idx(m2, name);
        assert(k2 == n) by {
            if k2 != n {
                assert(m[k2].0 == name);
                assert(has_name(m, name));
            }
        }
        assert(m2[n].1 == seq![e]);
        assert(seq![e][0] == e);
        assert(seq![e].contains(e));
    } else {
        let k = name_idx(m, name);
        if m[k].1.contains(e) {
            assert(m2 == m);
            assert(entries_of(m2, name) == Some(m[k].1));
        } else {
            assert(m2[k].0 == name);
            assert(has_name(m2, name));
            let k2 = name_idx(m2, name);
            assert(k2 == k) by {
                if k2 != k {
                    assert(m2[k2].0 == m2[k].0);
                }
            }
            let l2 = m[k].1.push(e);
            assert(l2[l2.len() - 1] == e);
            assert(l2.contains(e));
        }
    }
}

/// Idempotent registration: registering the same (name, source, target)
/// twice is the same as registering it once; the second call leaves the
/// name's list unchanged in length and content.
pub proof fn lemma_add_idempotent(m: DbMapV, name: Seq<u8>, e: ConfigV)
    requires
        wf_map(m),
    ensures
        spec_add(spec_add(m, name, e), name, e) == spec_add(m, name, e),
{
    let m2 = spec_add(m, name, e);
    lemma_add_preserves_wf(m, name, e);
    lemma_add_registers(m, name, e);
    assert(has_name(m2, name));
    let k2 = name_idx(m2, name);
    assert(m2[k2].1 == entries_of(m2, name).unwrap());
    assert(m2[k2].1.contains(e));
    assert(spec_add(m2, name, e) == m2);
}

/// No cross-name deduplication: the same (source, target) pair registered
/// under two different names yields two independent entries, and the second
/// registration does not disturb the first name's list.
pub proof fn lemma_dedup_is_per_name(m: DbMapV, name1: Seq<u8>, name2: Seq<u8>, e: ConfigV)
    requires
        wf_map(m),
        name1 != name2,
    ensures
        ({
            let m1 = spec_add(m, name1, e);
            let m2 = spec_add(m1, name2, e);
            &&& entries_of(m2, name1) == entries_of(m1, name1)
            &&& entries_of(m2, name1) matches Some(l1) && l1.contains(e)
            &&& entries_of(m2, name2) matches Some(l2) && l2.contains(e)
        }),
{
    let m1 = spec_add(m, name1, e);
    lemma_add_preserves_wf(m, name1, e);
    lemma_add_registers(m, name1, e);
    lemma_add_frame(m1, name2, e, name1);
    lemma_add_registers(m1, name2, e);
}

} // verus!
