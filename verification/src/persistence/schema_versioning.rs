//! Schema versions recorded per module, and which version steps are
//! allowed.
use vstd::prelude::*;
use crate::runtime::index::{keys_distinct, lookup, lemma_lookup_at};
use crate::runtime::value::same_text;

verus! {

/// A schema version of a module, and when it was recorded.
#[derive(Debug, Clone)]
pub struct SchemaVersion {
    pub module: String,
    pub version: u32,
    pub timestamp: u64,
}

pub struct VersionView {
    pub module: Seq<char>,
    pub version: u32,
    pub timestamp: u64,
}

impl View for SchemaVersion {
    type V = VersionView;

    open spec fn view(&self) -> VersionView {
        VersionView { module: self.module@, version: self.version, timestamp: self.timestamp }
    }
}

pub open spec fn versions_view(v: Seq<SchemaVersion>) -> Seq<VersionView> {
    v.map_values(|s: SchemaVersion| s@)
}

/// A version step is allowed when it stays or goes up by one.
pub open spec fn compatible_step(from_version: u32, to_version: u32) -> bool {
    to_version == from_version || to_version == from_version + 1
}

/// The versions recorded for each module, in the order recorded.
#[derive(Debug, Clone)]
pub struct SchemaVersionRegistry {
    versions: Vec<(String, Vec<SchemaVersion>)>,
}

impl View for SchemaVersionRegistry {
    type V = Seq<(Seq<char>, Seq<VersionView>)>;

    closed spec fn view(&self) -> Seq<(Seq<char>, Seq<VersionView>)> {
        self.versions@.map_values(|e: (String, Vec<SchemaVersion>)| (e.0@, versions_view(e.1@)))
    }
}

impl SchemaVersionRegistry {
    /// Each module appears once.
    pub open spec fn wf(&self) -> bool {
        keys_distinct(self@)
    }

    /// The versions recorded for `module`, if any.
    pub open spec fn versions_of(&self, module: Seq<char>) -> Option<Seq<VersionView>> {
        lookup(self@, module)
    }

    pub fn new() -> (r: Self)
        ensures
            r.wf(),
            forall|m: Seq<char>| r.versions_of(m) is None,
    {
        let r = SchemaVersionRegistry { versions: Vec::new() };
        assert(r@ =~= Seq::<(Seq<char>, Seq<VersionView>)>::empty());
        r
    }

    fn position_of(&self, module: &str) -> (r: Option<usize>)
        ensures
            match r {
                Some(p) => p < self@.len() && self@[p as int].0 == module@,
                None => forall|i: int| 0 <= i < self@.len() ==> (#[trigger] self@[i]).0 != module@,
            },
    {
        let mut p: usize = 0;
        while p < self.versions.len()
            invariant
                p <= self@.len(),
                self@.len() == self.versions@.len(),
                forall|i: int| 0 <= i < p ==> (#[trigger] self@[i]).0 != module@,
            decreases self.versions.len() - p,
        {
            proof {
                assert(self@[p as int].0 == self.versions@[p as int].0@);
            }
            if same_text(self.versions[p].0.as_str(), module) {
                return Some(p);
            }
            p = p + 1;
        }
        None
    }

    /// Record `version` of `module` at `timestamp`, after the versions
    /// recorded for it before.
    pub fn record_version(&mut self, module: String, version: u32, timestamp: u64)
        requires
            old(self).wf(),
        ensures
            final(self).wf(),
            final(self).versions_of(module@) == Some(
                match old(self).versions_of(module@) {
                    Some(v) => v,
                    None => Seq::<VersionView>::empty(),
                }.push(VersionView { module: module@, version, timestamp }),
            ),
            forall|m: Seq<char>| m != module@ ==> final(self).versions_of(m) == old(self).versions_of(m),
    {
        let ghost s0 = self@;
        let ghost k = module@;
        let ghost entry = VersionView { module: module@, version, timestamp };
        match self.position_of(module.as_str()) {
            Some(p) => {
                proof {
                    lemma_lookup_at(s0, p as int);
                }
                let (name, mut list) = self.versions.remove(p);
                list.push(SchemaVersion { module, version, timestamp });
                self.versions.insert(p, (name, list));
                proof {
                    let s1 = self@;
                    assert(s1 =~= s0.update(p as int, (k, s0[p as int].1.push(entry)))) by {
                        assert(versions_view(list@) =~= s0[p as int].1.push(entry));
                    }
                    assert forall|i: int, j: int| 0 <= i < s1.len() && 0 <= j < s1.len() && i != j implies (
                    #[trigger] s1[i]).0 != (#[trigger] s1[j]).0 by {
                        assert(s1[i].0 == s0[i].0 && s1[j].0 == s0[j].0);
                    }
                    lemma_lookup_at(s1, p as int);
                    assert forall|k2: Seq<char>| k2 != k implies lookup(s1, k2) == lookup(s0, k2) by {
                        if exists|i: int| 0 <= i < s0.len() && (#[trigger] s0[i]).0 == k2 {
                            let i = choose|i: int| 0 <= i < s0.len() && (#[trigger] s0[i]).0 == k2;
                            lemma_lookup_at(s0, i);
                            lemma_lookup_at(s1, i);
                        }
                    }
                }
            },
            None => {
                let mut list: Vec<SchemaVersion> = Vec::new();
                let name = module.clone();
                list.push(SchemaVersion { module, version, timestamp });
                self.versions.push((name, list));
                proof {
                    let s1 = self@;
                    assert(s1 =~= s0.push((k, seq![entry]))) by {
                        assert(versions_view(list@) =~= seq![entry]);
                    }
                    assert forall|i: int, j: int| 0 <= i < s1.len() && 0 <= j < s1.len() && i != j implies (
                    #[trigger] s1[i]).0 != (#[trigger] s1[j]).0 by {
                        if i < s0.len() && j < s0.len() {
                            assert(s1[i] == s0[i] && s1[j] == s0[j]);
                        } else if i < s0.len() {
                            assert(s1[i] == s0[i]);
                        } else {
                            assert(s1[j] == s0[j]);
                        }
                    }
                    lemma_lookup_at(s1, s0.len() as int);
                    assert(seq![entry] =~= Seq::<VersionView>::empty().push(entry));
                    assert forall|k2: Seq<char>| k2 != k implies lookup(s1, k2) == lookup(s0, k2) by {
                        if exists|i: int| 0 <= i < s0.len() && (#[trigger] s0[i]).0 == k2 {
                            let i = choose|i: int| 0 <= i < s0.len() && (#[trigger] s0[i]).0 == k2;
                            lemma_lookup_at(s0, i);
                            assert(s1[i] == s0[i]);
                            lemma_lookup_at(s1, i);
                        } else {
                            assert forall|i: int| 0 <= i < s1.len() implies (#[trigger] s1[i]).0 != k2 by {
                                if i < s0.len() {
                                    assert(s1[i] == s0[i]);
                                }
                            }
                        }
                    }
                }
            },
        }
    }

    /// The versions recorded for `module`, oldest first.
    pub fn get_versions(&self, module: &str) -> (r: Option<&[SchemaVersion]>)
        requires
            self.wf(),
        ensures
            match r {
                Some(v) => self.versions_of(module@) == Some(versions_view(v@)),
                None => self.versions_of(module@) is None,
            },
    {
        match self.position_of(module) {
            Some(p) => {
                proof {
                    lemma_lookup_at(self@, p as int);
                }
                Some(self.versions[p].1.as_slice())
            },
            None => None,
        }
    }

    /// Whether a module may go from `from_version` to `to_version`: it may
    /// stay or go up by one (there is no version after `u32::MAX`).
    pub fn is_compatible(&self, module: &str, from_version: u32, to_version: u32) -> (r: bool)
        ensures
            r == compatible_step(from_version, to_version),
    {
        to_version == from_version || (from_version < u32::MAX && to_version == from_version + 1)
    }

    /// The version recorded last for `module`.
    pub fn latest_version(&self, module: &str) -> (r: Option<u32>)
        requires
            self.wf(),
        ensures
            r == match self.versions_of(module@) {
                Some(v) => if v.len() > 0 {
                    Some(v.last().version)
                } else {
                    None
                },
                None => None,
            },
    {
        match self.get_versions(module) {
            Some(v) => {
                if v.len() > 0 {
                    Some(v[v.len() - 1].version)
                } else {
                    None
                }
            },
            None => None,
        }
    }
}

impl Default for SchemaVersionRegistry {
    fn default() -> (r: Self)
        ensures
            r.wf(),
            forall|m: Seq<char>| r.versions_of(m) is None,
    {
        Self::new()
    }
}

/// After a version is recorded for a module, it is the module's latest
/// version.
pub proof fn lemma_recorded_is_latest(
    before: &SchemaVersionRegistry,
    after: &SchemaVersionRegistry,
    module: Seq<char>,
    version: u32,
    timestamp: u64,
)
    requires
        after.versions_of(module) == Some(
            match before.versions_of(module) {
                Some(v) => v,
                None => Seq::<VersionView>::empty(),
            }.push(VersionView { module, version, timestamp }),
        ),
    ensures
        after.versions_of(module) matches Some(v) && v.len() > 0 && v.last().version == version,
{
}

} // verus!
