//! A secondary index over one field of a table: for every key, the row
//! positions whose field holds that key.
use vstd::prelude::*;
use crate::runtime::error::{IntersticeError, auto_inc_update_refused, internal, internal_error, query_refused, unique_violation};
use crate::runtime::schema::{IndexQuery, IndexSchema, IndexType, IntersticeType, query_matches, query_supported};
use crate::runtime::table::auto_inc::{AutoIncState, AutoIncView, auto_inc_kind_of, auto_inc_step, auto_inc_sync, counter_view, overflow_text};
use crate::runtime::value::{IndexKey, KeyOrder, KeyView, Row, RowView, key_le, key_lt, lemma_key_order, value_key};

verus! {

/// The key of field `field` of a row, if the row has that field and its
/// value can be a key.
pub open spec fn row_field_key(row: RowView, field: int) -> Option<KeyView> {
    if 0 <= field < row.entries.len() {
        value_key(row.entries[field])
    } else {
        None
    }
}

/// The message for an auto-increment field whose type has no counter.
pub open spec fn unsupported_field_text(field: Seq<char>, table: Seq<char>) -> Seq<char> {
    "auto_inc is not supported for field '"@ + field + "' in table '"@ + table + "'"@
}

pub fn unsupported_field_message(field: &String, table: &str) -> (m: String)
    ensures
        m@ == unsupported_field_text(field@, table@),
{
    let mut m = "auto_inc is not supported for field '".to_owned();
    m.append(field.as_str());
    m.append("' in table '");
    m.append(table);
    m.append("'");
    m
}

/// What syncing an index's counter from a row gives: the new counter
/// state, or the error message.
pub open spec fn index_sync_outcome(
    auto_inc: bool,
    state: Option<AutoIncView>,
    field: Seq<char>,
    field_index: int,
    row: RowView,
    table: Seq<char>,
) -> Result<Option<AutoIncView>, Seq<char>> {
    if !auto_inc {
        Ok(state)
    } else {
        match state {
            None => Err(unsupported_field_text(field, table)),
            Some(st) => if field_index >= row.entries.len() {
                Err("Index field out of bounds"@)
            } else {
                match auto_inc_sync(st, row.entries[field_index]) {
                    Ok(c) => Ok(Some(c)),
                    Err(m) => Err(m),
                }
            },
        }
    }
}

/// What drawing the next number for index `info` does to `row`: the
/// index's new counter and the filled-in row, or the error message.
pub open spec fn index_prepare(
    auto_inc: bool,
    counter: Option<AutoIncView>,
    field: Seq<char>,
    field_index: int,
    row: RowView,
    table: Seq<char>,
) -> (Option<AutoIncView>, Result<RowView, Seq<char>>) {
    if !auto_inc {
        (counter, Ok(row))
    } else {
        match counter {
            None => (counter, Err(unsupported_field_text(field, table))),
            Some(st) => {
                let (st2, v) = auto_inc_step(st);
                match v {
                    None => (Some(st2), Err(overflow_text(st.kind))),
                    Some(val) => if 0 <= field_index < row.entries.len() {
                        (Some(st2), Ok(RowView { primary_key: row.primary_key, entries: row.entries.update(field_index, val) }))
                    } else {
                        (Some(st2), Err("Index field out of bounds"@))
                    },
                }
            },
        }
    }
}

/// An index on one field of a table.
pub struct TableIndex {
    pub field_name: String,
    pub field_index: usize,
    pub unique: bool,
    pub auto_inc: bool,
    pub auto_inc_state: Option<AutoIncState>,
    pub index_type: IndexType,
    pub entries: Vec<(IndexKey, Vec<usize>)>,
}

impl TableIndex {
    /// The keys of the index, in stored order.
    pub closed spec fn key_at(&self, i: int) -> KeyView {
        self.entries@[i].0@
    }

    pub closed spec fn entry_count(&self) -> nat {
        self.entries@.len()
    }

    /// The positions recorded under key `k`.
    pub closed spec fn pos_set(&self, k: KeyView) -> Set<usize> {
        Set::new(
            |p: usize|
                exists|i: int|
                    0 <= i < self.entries@.len() && #[trigger] self.entries@[i].0@ == k
                        && self.entries@[i].1@.contains(p),
        )
    }

    /// Whether some entry has key `k`.
    pub closed spec fn has_key(&self, k: KeyView) -> bool {
        exists|i: int| 0 <= i < self.entries@.len() && #[trigger] self.entries@[i].0@ == k
    }

    /// Keys strictly increasing; each entry's position list non-empty and
    /// free of repeats.
    pub closed spec fn wf(&self) -> bool {
        &&& forall|i: int, j: int|
            0 <= i < j < self.entries@.len() ==> key_lt(
                #[trigger] self.entries@[i].0@,
                #[trigger] self.entries@[j].0@,
            )
        &&& forall|i: int|
            0 <= i < self.entries@.len() ==> #[trigger] self.entries@[i].1@.len() > 0
                && self.entries@[i].1@.no_duplicates()
    }

    /// The positions of entry `i`, in stored order.
    pub closed spec fn positions_at(&self, i: int) -> Seq<usize> {
        self.entries@[i].1@
    }

    pub proof fn lemma_has_key_iff_nonempty(&self, k: KeyView)
        requires
            self.wf(),
        ensures
            self.has_key(k) <==> self.pos_set(k) != Set::<usize>::empty(),
    {
        if self.has_key(k) {
            let i = choose|i: int| 0 <= i < self.entries@.len() && #[trigger] self.entries@[i].0@ == k;
            let p = self.entries@[i].1@[0];
            assert(self.entries@[i].1@.contains(p));
            assert(self.pos_set(k).contains(p));
        } else {
            assert(self.pos_set(k) =~= Set::<usize>::empty());
        }
    }

    /// The entry with key `k` is the only one holding `k`.
    proof fn lemma_unique_entry(&self, i: int, k: KeyView)
        requires
            self.wf(),
            0 <= i < self.entries@.len(),
            self.entries@[i].0@ == k,
        ensures
            self.pos_set(k) == self.entries@[i].1@.to_set(),
            forall|j: int| 0 <= j < self.entries@.len() && j != i ==> self.entries@[j].0@ != k,
    {
        assert forall|j: int| 0 <= j < self.entries@.len() && j != i implies self.entries@[j].0@
            != k by {
            lemma_key_order(self.entries@[i].0@, self.entries@[j].0@, k);
            if j < i {
                assert(key_lt(self.entries@[j].0@, self.entries@[i].0@));
            } else {
                assert(key_lt(self.entries@[i].0@, self.entries@[j].0@));
            }
        }
        assert(self.pos_set(k) =~= self.entries@[i].1@.to_set());
    }

    /// Indexes with the same entries record the same positions.
    pub proof fn lemma_same_entries(a: &TableIndex, b: &TableIndex)
        requires
            a.entries@ == b.entries@,
        ensures
            a.wf() == b.wf(),
            forall|k: KeyView| #[trigger] a.pos_set(k) == b.pos_set(k),
            forall|k: KeyView| #[trigger] a.has_key(k) == b.has_key(k),
    {
        assert forall|k: KeyView| #[trigger] a.pos_set(k) == b.pos_set(k) by {
            assert(a.pos_set(k) =~= b.pos_set(k));
        }
    }

    /// A fresh, empty index for a field at position `field_index` of type
    /// `field_type`.
    pub fn new(schema: &IndexSchema, field_index: usize, field_type: &IntersticeType) -> (s: Self)
        ensures
            s.wf(),
            s.entry_count() == 0,
            s.field_name@ == schema.field_name@,
            s.field_index == field_index,
            s.unique == (schema.unique || schema.auto_inc),
            s.auto_inc == schema.auto_inc,
            s.index_type == schema.index_type,
            schema.auto_inc ==> match auto_inc_kind_of(*field_type) {
                None => s.auto_inc_state is None,
                Some(k) => s.auto_inc_state matches Some(st) && st@ == (AutoIncView { kind: k, next: 0 }),
            },
            !schema.auto_inc ==> s.auto_inc_state is None,
            forall|k: KeyView| #[trigger] s.pos_set(k) == Set::<usize>::empty(),
    {
        let auto_inc_state = if schema.auto_inc {
            AutoIncState::from_type(field_type)
        } else {
            None
        };
        let s = TableIndex {
            field_name: schema.field_name.clone(),
            field_index,
            unique: schema.unique || schema.auto_inc,
            auto_inc: schema.auto_inc,
            auto_inc_state,
            index_type: schema.index_type,
            entries: Vec::new(),
        };
        assert forall|k: KeyView| #[trigger] s.pos_set(k) == Set::<usize>::empty() by {
            assert(s.pos_set(k) =~= Set::<usize>::empty());
        }
        s
    }

    /// Locate the entry for `key`: `Ok(i)` when entry `i` has it, `Err(i)`
    /// with the position where it would be inserted otherwise.
    fn locate(&self, key: &IndexKey) -> (r: Result<usize, usize>)
        requires
            self.wf(),
        ensures
            match r {
                Ok(i) => i < self.entries@.len() && self.entries@[i as int].0@ == key@,
                Err(i) => {
                    &&& i <= self.entries@.len()
                    &&& !self.has_key(key@)
                    &&& forall|j: int| 0 <= j < i ==> key_lt(#[trigger] self.entries@[j].0@, key@)
                    &&& forall|j: int|
                        i <= j < self.entries@.len() ==> key_lt(key@, #[trigger] self.entries@[j].0@)
                },
            },
    {
        let mut i: usize = 0;
        while i < self.entries.len()
            invariant
                self.wf(),
                i <= self.entries@.len(),
                forall|j: int| 0 <= j < i ==> key_lt(#[trigger] self.entries@[j].0@, key@),
            decreases self.entries.len() - i,
        {
            let o = self.entries[i].0.compare(key);
            if o == KeyOrder::Equal {
                return Ok(i);
            }
            if o == KeyOrder::Greater {
                proof {
                    lemma_key_order(self.entries@[i as int].0@, key@, key@);
                    assert forall|j: int| i <= j < self.entries@.len() implies key_lt(
                        key@,
                        #[trigger] self.entries@[j].0@,
                    ) by {
                        if j > i {
                            lemma_key_order(key@, self.entries@[i as int].0@, self.entries@[j].0@);
                        }
                    }
                    assert forall|j: int| 0 <= j < self.entries@.len() implies #[trigger] self.entries@[j].0@ != key@ by {
                        lemma_key_order(self.entries@[j].0@, key@, key@);
                    }
                }
                return Err(i);
            }
            i = i + 1;
        }
        proof {
            assert forall|j: int| 0 <= j < self.entries@.len() implies #[trigger] self.entries@[j].0@ != key@ by {
                lemma_key_order(self.entries@[j].0@, key@, key@);
            }
        }
        Err(i)
    }

    /// Whether some row is recorded under `key`.
    pub fn contains_key(&self, key: &IndexKey) -> (b: bool)
        requires
            self.wf(),
        ensures
            b == self.has_key(key@),
            b <==> self.pos_set(key@) != Set::<usize>::empty(),
    {
        proof {
            self.lemma_has_key_iff_nonempty(key@);
        }
        self.locate(key).is_ok()
    }

    /// The positions recorded under `key`, if any.
    pub fn positions(&self, key: &IndexKey) -> (r: Option<&Vec<usize>>)
        requires
            self.wf(),
        ensures
            match r {
                Some(ps) => self.has_key(key@) && ps@.to_set() == self.pos_set(key@)
                    && ps@.no_duplicates() && ps@.len() > 0,
                None => !self.has_key(key@) && self.pos_set(key@) == Set::<usize>::empty(),
            },
    {
        proof {
            self.lemma_has_key_iff_nonempty(key@);
        }
        match self.locate(key) {
            Ok(i) => {
                proof {
                    self.lemma_unique_entry(i as int, key@);
                }
                Some(&self.entries[i].1)
            },
            Err(_) => None,
        }
    }

    /// Record `position` under `key`. A unique index refuses a key that
    /// already has a position.
    pub fn insert(&mut self, position: usize, key: IndexKey, table_name: &str) -> (res: Result<(), IntersticeError>)
        requires
            old(self).wf(),
            !old(self).pos_set(key@).contains(position),
        ensures
            final(self).wf(),
            final(self).field_name == old(self).field_name,
            final(self).field_index == old(self).field_index,
            final(self).unique == old(self).unique,
            final(self).auto_inc == old(self).auto_inc,
            final(self).auto_inc_state == old(self).auto_inc_state,
            final(self).index_type == old(self).index_type,
            res is Ok <==> !(old(self).unique && old(self).has_key(key@)),
            res is Ok ==> forall|k: KeyView| #[trigger] final(self).pos_set(k) == if k == key@ {
                old(self).pos_set(k).insert(position)
            } else {
                old(self).pos_set(k)
            },
            res matches Err(e) ==> final(self).entries@ == old(self).entries@ && unique_violation(
                e,
                table_name@,
                old(self).field_name@,
            ),
    {
        match self.locate(&key) {
            Ok(i) => {
                proof {
                    self.lemma_unique_entry(i as int, key@);
                }
                if self.unique {
                    return Err(
                        IntersticeError::UniqueConstraintViolation {
                            table_name: table_name.to_owned(),
                            field_name: self.field_name.clone(),
                        },
                    );
                }
                let ghost old_entries = self.entries@;
                let (k, mut ps) = self.entries.remove(i);
                proof {
                    assert(old_entries[i as int].1@ == ps@);
                    assert(!ps@.contains(position));
                }
                ps.push(position);
                let ghost new_ps = ps@;
                let ghost kv = key@;
                proof {
                    assert(new_ps == old_entries[i as int].1@.push(position));
                }
                self.entries.insert(i, (k, ps));
                proof {
                    assert(self.entries@ =~= old_entries.update(i as int, (old_entries[i as int].0, ps)));
                    assert(self.entries@[i as int].1@ == new_ps);
                    assert(self.entries@[i as int].0@ == kv);
                    assert forall|a: int, b: int| 0 <= a < b < self.entries@.len() implies key_lt(
                        #[trigger] self.entries@[a].0@,
                        #[trigger] self.entries@[b].0@,
                    ) by {
                        assert(old_entries[a].0@ == self.entries@[a].0@);
                        assert(old_entries[b].0@ == self.entries@[b].0@);
                    }
                    assert forall|a: int| 0 <= a < self.entries@.len() implies #[trigger] self.entries@[a].1@.len() > 0
                        && self.entries@[a].1@.no_duplicates() by {
                        if a == i {
                            assert forall|x: int, y: int| 0 <= x < y < new_ps.len() implies new_ps[x] != new_ps[y] by {
                                if y == new_ps.len() - 1 {
                                    assert(old_entries[i as int].1@[x] == new_ps[x]);
                                    assert(old_entries[i as int].1@.contains(new_ps[x]));
                                    assert(old(self).pos_set(kv).contains(new_ps[x]));
                                } else {
                                    assert(old_entries[i as int].1@[x] == new_ps[x]);
                                    assert(old_entries[i as int].1@[y] == new_ps[y]);
                                }
                            }
                        }
                    }
                    assert forall|k: KeyView| #[trigger] self.pos_set(k) == if k == kv {
                        old(self).pos_set(k).insert(position)
                    } else {
                        old(self).pos_set(k)
                    } by {
                        let target = if k == kv {
                            old(self).pos_set(k).insert(position)
                        } else {
                            old(self).pos_set(k)
                        };
                        assert forall|p: usize| self.pos_set(k).contains(p) implies target.contains(p) by {
                            let a = choose|a: int| 0 <= a < self.entries@.len() && #[trigger] self.entries@[a].0@ == k
                                && self.entries@[a].1@.contains(p);
                            if a != i {
                                assert(old_entries[a] == self.entries@[a]);
                                assert(old_entries[a].0@ == k && old_entries[a].1@.contains(p));
                            } else if p != position {
                                let t = choose|t: int| 0 <= t < new_ps.len() && new_ps[t] == p;
                                assert(t < new_ps.len() - 1);
                                assert(old_entries[i as int].1@[t] == p);
                                assert(old_entries[a].0@ == k && old_entries[a].1@.contains(p));
                            }
                        }
                        assert forall|p: usize| target.contains(p) implies self.pos_set(k).contains(p) by {
                            if k == kv && p == position {
                                assert(new_ps[new_ps.len() - 1] == p);
                                assert(self.entries@[i as int].1@.contains(p));
                            } else {
                                let a = choose|a: int| 0 <= a < old_entries.len() && #[trigger] old_entries[a].0@ == k
                                    && old_entries[a].1@.contains(p);
                                if a == i {
                                    let t = choose|t: int| 0 <= t < old_entries[a].1@.len() && old_entries[a].1@[t] == p;
                                    assert(new_ps[t] == p);
                                    assert(self.entries@[a].1@.contains(p));
                                } else {
                                    assert(self.entries@[a] == old_entries[a]);
                                    assert(self.entries@[a].1@.contains(p));
                                }
                            }
                        }
                        assert(self.pos_set(k) =~= target);
                    }
                }
                Ok(())
            },
            Err(i) => {
                let ghost old_entries = self.entries@;
                let mut ps: Vec<usize> = Vec::new();
                ps.push(position);
                let ghost kv = key@;
                self.entries.insert(i, (key, ps));
                proof {
                    assert(self.entries@ =~= old_entries.insert(i as int, (self.entries@[i as int].0, ps)));
                    assert(self.entries@[i as int].0@ == kv);
                    assert forall|a: int, b: int| 0 <= a < b < self.entries@.len() implies key_lt(
                        #[trigger] self.entries@[a].0@,
                        #[trigger] self.entries@[b].0@,
                    ) by {
                        if a < i && b < i {
                            assert(old_entries[a].0@ == self.entries@[a].0@);
                            assert(old_entries[b].0@ == self.entries@[b].0@);
                        } else if a < i && b == i {
                        } else if a < i {
                            assert(old_entries[a].0@ == self.entries@[a].0@);
                            assert(old_entries[b - 1].0@ == self.entries@[b].0@);
                        } else if a == i {
                            assert(old_entries[b - 1].0@ == self.entries@[b].0@);
                        } else {
                            assert(old_entries[a - 1].0@ == self.entries@[a].0@);
                            assert(old_entries[b - 1].0@ == self.entries@[b].0@);
                        }
                    }
                    assert forall|a: int| 0 <= a < self.entries@.len() implies #[trigger] self.entries@[a].1@.len() > 0
                        && self.entries@[a].1@.no_duplicates() by {
                        if a < i {
                            assert(self.entries@[a] == old_entries[a]);
                        } else if a > i {
                            assert(self.entries@[a] == old_entries[a - 1]);
                        }
                    }
                    assert forall|k: KeyView| #[trigger] self.pos_set(k) == if k == kv {
                        old(self).pos_set(k).insert(position)
                    } else {
                        old(self).pos_set(k)
                    } by {
                        assert forall|p: usize| self.pos_set(k).contains(p) <==> (if k == kv {
                            old(self).pos_set(k).insert(position)
                        } else {
                            old(self).pos_set(k)
                        }).contains(p) by {
                            if self.pos_set(k).contains(p) {
                                let a = choose|a: int| 0 <= a < self.entries@.len() && #[trigger] self.entries@[a].0@ == k
                                    && self.entries@[a].1@.contains(p);
                                if a < i {
                                    assert(old_entries[a] == self.entries@[a]);
                                    assert(old_entries[a].0@ == k);
                                } else if a > i {
                                    assert(old_entries[a - 1] == self.entries@[a]);
                                    assert(old_entries[a - 1].0@ == k);
                                } else {
                                    assert(ps@ =~= seq![position]);
                                }
                            }
                            if k == kv && p == position {
                                assert(self.entries@[i as int].1@[0] == p);
                            } else if old(self).pos_set(k).contains(p) {
                                let a = choose|a: int| 0 <= a < old_entries.len() && #[trigger] old_entries[a].0@ == k
                                    && old_entries[a].1@.contains(p);
                                if a < i {
                                    assert(self.entries@[a] == old_entries[a]);
                                } else {
                                    assert(self.entries@[a + 1] == old_entries[a]);
                                }
                            }
                        }
                        assert(self.pos_set(k) =~= (if k == kv {
                            old(self).pos_set(k).insert(position)
                        } else {
                            old(self).pos_set(k)
                        }));
                    }
                }
                Ok(())
            },
        }
    }

    /// Replace the positions of entry `i` by `ps`.
    fn set_entry_positions(&mut self, i: usize, ps: Vec<usize>)
        requires
            old(self).wf(),
            i < old(self).entries@.len(),
            ps@.len() > 0,
            ps@.no_duplicates(),
        ensures
            final(self).wf(),
            final(self).entries@.len() == old(self).entries@.len(),
            final(self).field_name == old(self).field_name,
            final(self).field_index == old(self).field_index,
            final(self).unique == old(self).unique,
            final(self).auto_inc == old(self).auto_inc,
            final(self).auto_inc_state == old(self).auto_inc_state,
            final(self).index_type == old(self).index_type,
            forall|j: int| 0 <= j < final(self).entries@.len() ==> #[trigger] final(self).entries@[j].0@ == old(self).entries@[j].0@,
            final(self).entries@[i as int].1@ == ps@,
            forall|k: KeyView| #[trigger] final(self).pos_set(k) == if k == old(self).entries@[i as int].0@ {
                ps@.to_set()
            } else {
                old(self).pos_set(k)
            },
            forall|k: KeyView| #[trigger] final(self).has_key(k) == old(self).has_key(k),
    {
        let ghost old_entries = self.entries@;
        let ghost kv = self.entries@[i as int].0@;
        let ghost new_ps = ps@;
        proof {
            self.lemma_unique_entry(i as int, kv);
        }
        let (k, _old_ps) = self.entries.remove(i);
        self.entries.insert(i, (k, ps));
        proof {
            assert(self.entries@ =~= old_entries.update(i as int, (old_entries[i as int].0, self.entries@[i as int].1)));
            assert forall|a: int, b: int| 0 <= a < b < self.entries@.len() implies key_lt(
                #[trigger] self.entries@[a].0@,
                #[trigger] self.entries@[b].0@,
            ) by {
                assert(old_entries[a].0@ == self.entries@[a].0@);
                assert(old_entries[b].0@ == self.entries@[b].0@);
            }
            assert forall|a: int| 0 <= a < self.entries@.len() implies #[trigger] self.entries@[a].1@.len() > 0
                && self.entries@[a].1@.no_duplicates() by {
                if a != i {
                    assert(self.entries@[a] == old_entries[a]);
                }
            }
            assert forall|j: int| 0 <= j < self.entries@.len() implies #[trigger] self.entries@[j].0@ == old_entries[j].0@ by {
            }
            assert forall|k: KeyView| #[trigger] self.has_key(k) == old(self).has_key(k) by {
                if self.has_key(k) {
                    let a = choose|a: int| 0 <= a < self.entries@.len() && #[trigger] self.entries@[a].0@ == k;
                    assert(old_entries[a].0@ == k);
                }
                if old(self).has_key(k) {
                    let a = choose|a: int| 0 <= a < old_entries.len() && #[trigger] old_entries[a].0@ == k;
                    assert(self.entries@[a].0@ == k);
                }
            }
            assert forall|k: KeyView| #[trigger] self.pos_set(k) == if k == kv {
                new_ps.to_set()
            } else {
                old(self).pos_set(k)
            } by {
                if k == kv {
                    self.lemma_unique_entry(i as int, kv);
                } else {
                    assert forall|p: usize| self.pos_set(k).contains(p) <==> old(self).pos_set(k).contains(p) by {
                        if self.pos_set(k).contains(p) {
                            let a = choose|a: int| 0 <= a < self.entries@.len() && #[trigger] self.entries@[a].0@ == k
                                && self.entries@[a].1@.contains(p);
                            assert(a != i);
                            assert(old_entries[a] == self.entries@[a]);
                        }
                        if old(self).pos_set(k).contains(p) {
                            let a = choose|a: int| 0 <= a < old_entries.len() && #[trigger] old_entries[a].0@ == k
                                && old_entries[a].1@.contains(p);
                            assert(a != i);
                            assert(old_entries[a] == self.entries@[a]);
                        }
                    }
                    assert(self.pos_set(k) =~= old(self).pos_set(k));
                }
            }
        }
    }

    /// Drop entry `i` altogether.
    fn drop_entry(&mut self, i: usize)
        requires
            old(self).wf(),
            i < old(self).entries@.len(),
        ensures
            final(self).wf(),
            final(self).field_name == old(self).field_name,
            final(self).field_index == old(self).field_index,
            final(self).unique == old(self).unique,
            final(self).auto_inc == old(self).auto_inc,
            final(self).auto_inc_state == old(self).auto_inc_state,
            final(self).index_type == old(self).index_type,
            forall|k: KeyView| #[trigger] final(self).pos_set(k) == if k == old(self).entries@[i as int].0@ {
                Set::<usize>::empty()
            } else {
                old(self).pos_set(k)
            },
            forall|k: KeyView| #[trigger] final(self).has_key(k) == (old(self).has_key(k) && k != old(self).entries@[i as int].0@),
    {
        let ghost old_entries = self.entries@;
        let ghost kv = self.entries@[i as int].0@;
        proof {
            self.lemma_unique_entry(i as int, kv);
        }
        let _gone = self.entries.remove(i);
        proof {
            assert(self.entries@ =~= old_entries.remove(i as int));
            assert forall|a: int, b: int| 0 <= a < b < self.entries@.len() implies key_lt(
                #[trigger] self.entries@[a].0@,
                #[trigger] self.entries@[b].0@,
            ) by {
                if a < i && b < i {
                    assert(old_entries[a].0@ == self.entries@[a].0@);
                    assert(old_entries[b].0@ == self.entries@[b].0@);
                } else if a < i {
                    assert(old_entries[a].0@ == self.entries@[a].0@);
                    assert(old_entries[b + 1].0@ == self.entries@[b].0@);
                } else {
                    assert(old_entries[a + 1].0@ == self.entries@[a].0@);
                    assert(old_entries[b + 1].0@ == self.entries@[b].0@);
                }
            }
            assert forall|a: int| 0 <= a < self.entries@.len() implies #[trigger] self.entries@[a].1@.len() > 0
                && self.entries@[a].1@.no_duplicates() by {
                if a < i {
                    assert(self.entries@[a] == old_entries[a]);
                } else {
                    assert(self.entries@[a] == old_entries[a + 1]);
                }
            }
            assert forall|k: KeyView| #[trigger] self.has_key(k) == (old(self).has_key(k) && k != kv) by {
                if self.has_key(k) {
                    let a = choose|a: int| 0 <= a < self.entries@.len() && #[trigger] self.entries@[a].0@ == k;
                    if a < i {
                        assert(old_entries[a].0@ == k);
                    } else {
                        assert(old_entries[a + 1].0@ == k);
                    }
                }
                if old(self).has_key(k) && k != kv {
                    let a = choose|a: int| 0 <= a < old_entries.len() && #[trigger] old_entries[a].0@ == k;
                    if a < i {
                        assert(self.entries@[a].0@ == k);
                    } else {
                        assert(self.entries@[a - 1].0@ == k);
                    }
                }
            }
            assert forall|k: KeyView| #[trigger] self.pos_set(k) == if k == kv {
                Set::<usize>::empty()
            } else {
                old(self).pos_set(k)
            } by {
                assert forall|p: usize| self.pos_set(k).contains(p) <==> (if k == kv {
                    Set::<usize>::empty()
                } else {
                    old(self).pos_set(k)
                }).contains(p) by {
                    if self.pos_set(k).contains(p) {
                        let a = choose|a: int| 0 <= a < self.entries@.len() && #[trigger] self.entries@[a].0@ == k
                            && self.entries@[a].1@.contains(p);
                        if a < i {
                            assert(old_entries[a] == self.entries@[a]);
                        } else {
                            assert(old_entries[a + 1] == self.entries@[a]);
                        }
                    }
                    if k != kv && old(self).pos_set(k).contains(p) {
                        let a = choose|a: int| 0 <= a < old_entries.len() && #[trigger] old_entries[a].0@ == k
                            && old_entries[a].1@.contains(p);
                        if a < i {
                            assert(old_entries[a] == self.entries@[a]);
                        } else {
                            assert(old_entries[a] == self.entries@[a - 1]);
                        }
                    }
                }
                assert(self.pos_set(k) =~= (if k == kv {
                    Set::<usize>::empty()
                } else {
                    old(self).pos_set(k)
                }));
            }
        }
    }

    /// Forget `position` under `key`; the key goes once no position is left.
    pub fn remove(&mut self, position: usize, key: IndexKey)
        requires
            old(self).wf(),
        ensures
            final(self).wf(),
            final(self).field_name == old(self).field_name,
            final(self).field_index == old(self).field_index,
            final(self).unique == old(self).unique,
            final(self).auto_inc == old(self).auto_inc,
            final(self).auto_inc_state == old(self).auto_inc_state,
            final(self).index_type == old(self).index_type,
            forall|k: KeyView| #[trigger] final(self).pos_set(k) == if k == key@ {
                old(self).pos_set(k).remove(position)
            } else {
                old(self).pos_set(k)
            },
    {
        match self.locate(&key) {
            Ok(i) => {
                proof {
                    self.lemma_unique_entry(i as int, key@);
                }
                let mut ps = copy_positions(&self.entries[i].1);
                match find_position(&ps, position) {
                    Some(t) => {
                        let ghost before = ps@;
                        ps.swap_remove(t);
                        proof {
                            lemma_swap_remove_set(before, t as int);
                        }
                        if ps.len() == 0 {
                            proof {
                                assert(before.to_set().remove(position) =~= Set::<usize>::empty()) by {
                                    assert forall|x: usize| !before.to_set().remove(position).contains(x) by {
                                        assert(!ps@.to_set().contains(x));
                                    }
                                }
                            }
                            self.drop_entry(i);
                        } else {
                            self.set_entry_positions(i, ps);
                        }
                    },
                    None => {
                        proof {
                            assert(self.pos_set(key@).remove(position) =~= self.pos_set(key@));
                        }
                    },
                }
            },
            Err(_) => {
                proof {
                    self.lemma_has_key_iff_nonempty(key@);
                    assert(self.pos_set(key@).remove(position) =~= self.pos_set(key@));
                }
            },
        }
    }

    /// Record under `key` the position `new_position` in place of
    /// `old_position`.
    pub fn replace_position(&mut self, old_position: usize, new_position: usize, key: IndexKey)
        requires
            old(self).wf(),
            !old(self).pos_set(key@).contains(new_position),
        ensures
            final(self).wf(),
            final(self).field_name == old(self).field_name,
            final(self).field_index == old(self).field_index,
            final(self).unique == old(self).unique,
            final(self).auto_inc == old(self).auto_inc,
            final(self).auto_inc_state == old(self).auto_inc_state,
            final(self).index_type == old(self).index_type,
            forall|k: KeyView| #[trigger] final(self).pos_set(k) == if k == key@ && old(self).pos_set(
                k,
            ).contains(old_position) {
                old(self).pos_set(k).remove(old_position).insert(new_position)
            } else {
                old(self).pos_set(k)
            },
    {
        match self.locate(&key) {
            Ok(i) => {
                proof {
                    self.lemma_unique_entry(i as int, key@);
                }
                let mut ps = copy_positions(&self.entries[i].1);
                match find_position(&ps, old_position) {
                    Some(t) => {
                        let ghost before = ps@;
                        ps.set(t, new_position);
                        proof {
                            lemma_replace_set(before, t as int, new_position);
                        }
                        self.set_entry_positions(i, ps);
                    },
                    None => {},
                }
            },
            Err(_) => {
                proof {
                    self.lemma_has_key_iff_nonempty(key@);
                }
            },
        }
    }

    /// The positions of the entries, in key order, whose key satisfies
    /// `q`, looking at the first `n` entries.
    pub open spec fn scan_prefix(&self, q: IndexQuery, n: int) -> Seq<usize>
        decreases n,
    {
        if n <= 0 {
            Seq::empty()
        } else {
            self.scan_prefix(q, n - 1) + if query_matches(q, self.entries@[n - 1].0@) {
                self.entries@[n - 1].1@
            } else {
                Seq::empty()
            }
        }
    }

    /// Everything the index returns for `q`.
    pub open spec fn scan_result(&self, q: IndexQuery) -> Seq<usize> {
        self.scan_prefix(q, self.entry_count() as int)
    }

    /// The positions of the first `n` entries, in key order.
    pub open spec fn all_positions(&self, n: int) -> Seq<usize>
        decreases n,
    {
        if n <= 0 {
            Seq::empty()
        } else {
            self.all_positions(n - 1) + self.entries@[n - 1].1@
        }
    }

    /// No entry before one with a key below `k` has a key `k` or above.
    proof fn lemma_below_before(&self, k: KeyView, n: int)
        requires
            self.wf(),
            0 < n <= self.entries@.len(),
            key_lt(self.entries@[n - 1].0@, k),
        ensures
            forall|i: int| 0 <= i < n ==> key_lt(#[trigger] self.entries@[i].0@, k),
    {
        assert forall|i: int| 0 <= i < n implies key_lt(#[trigger] self.entries@[i].0@, k) by {
            if i < n - 1 {
                lemma_key_order(self.entries@[i].0@, self.entries@[n - 1].0@, k);
            }
        }
    }

    proof fn lemma_none_from(&self, q: IndexQuery, n: int)
        requires
            0 <= n <= self.entries@.len(),
            forall|i: int| 0 <= i < n ==> !query_matches(q, #[trigger] self.entries@[i].0@),
        ensures
            self.scan_prefix(q, n) == Seq::<usize>::empty(),
        decreases n,
    {
        if n > 0 {
            self.lemma_none_from(q, n - 1);
        }
    }

    /// A scan for the keys below `k` followed by one for the keys from `k`
    /// up gives every stored position once, in key order; and a scan for
    /// the keys up to `k` is the scan below `k` followed by the one for `k`.
    pub proof fn lemma_scan_partition(&self, k: IndexKey, n: int)
        requires
            self.wf(),
            0 <= n <= self.entry_count(),
        ensures
            self.scan_prefix(IndexQuery::Lt(k), n) + self.scan_prefix(IndexQuery::Gte(k), n) == self.all_positions(n),
            self.scan_prefix(IndexQuery::Lte(k), n) == self.scan_prefix(IndexQuery::Lt(k), n) + self.scan_prefix(
                IndexQuery::Eq(k),
                n,
            ),
        decreases n,
    {
        if n > 0 {
            self.lemma_scan_partition(k, n - 1);
            let key = self.entries@[n - 1].0@;
            let pos = self.entries@[n - 1].1@;
            lemma_key_order(key, k@, key);
            if key_lt(key, k@) {
                self.lemma_below_before(k@, n);
                assert forall|i: int| 0 <= i < n - 1 implies !query_matches(
                    IndexQuery::Gte(k),
                    #[trigger] self.entries@[i].0@,
                ) by {
                    lemma_key_order(self.entries@[i].0@, k@, self.entries@[i].0@);
                }
                assert forall|i: int| 0 <= i < n - 1 implies !query_matches(
                    IndexQuery::Eq(k),
                    #[trigger] self.entries@[i].0@,
                ) by {
                    lemma_key_order(self.entries@[i].0@, k@, self.entries@[i].0@);
                }
                self.lemma_none_from(IndexQuery::Gte(k), n - 1);
                self.lemma_none_from(IndexQuery::Eq(k), n - 1);
                assert(self.scan_prefix(IndexQuery::Gte(k), n) =~= Seq::<usize>::empty());
                assert(self.scan_prefix(IndexQuery::Lt(k), n) =~= self.all_positions(n - 1) + pos);
                assert(self.scan_prefix(IndexQuery::Lt(k), n) + self.scan_prefix(IndexQuery::Gte(k), n)
                    =~= self.all_positions(n));
                assert(self.scan_prefix(IndexQuery::Eq(k), n) =~= Seq::<usize>::empty());
                assert(self.scan_prefix(IndexQuery::Lte(k), n) =~= self.scan_prefix(IndexQuery::Lt(k), n) + self.scan_prefix(
                    IndexQuery::Eq(k),
                    n,
                ));
            } else {
                let lt = self.scan_prefix(IndexQuery::Lt(k), n - 1);
                let ge = self.scan_prefix(IndexQuery::Gte(k), n - 1);
                assert(self.scan_prefix(IndexQuery::Lt(k), n) == lt + Seq::<usize>::empty());
                assert(self.scan_prefix(IndexQuery::Gte(k), n) == ge + pos);
                assert(lt + Seq::<usize>::empty() =~= lt);
                assert(lt + (ge + pos) =~= (lt + ge) + pos);
                if key == k@ {
                    if n > 1 {
                        assert forall|i: int| 0 <= i < n - 1 implies !query_matches(
                            IndexQuery::Eq(k),
                            #[trigger] self.entries@[i].0@,
                        ) by {
                            lemma_key_order(self.entries@[i].0@, k@, self.entries@[i].0@);
                        }
                    }
                    self.lemma_none_from(IndexQuery::Eq(k), n - 1);
                    let eq0 = self.scan_prefix(IndexQuery::Eq(k), n - 1);
                    assert(eq0 =~= Seq::<usize>::empty());
                    assert(self.scan_prefix(IndexQuery::Eq(k), n) == eq0 + pos);
                    assert(self.scan_prefix(IndexQuery::Lte(k), n) == self.scan_prefix(IndexQuery::Lte(k), n - 1) + pos);
                    assert(lt + (eq0 + pos) =~= (lt + eq0) + pos);
                } else {
                    let eq0 = self.scan_prefix(IndexQuery::Eq(k), n - 1);
                    assert(self.scan_prefix(IndexQuery::Eq(k), n) == eq0 + Seq::<usize>::empty());
                    assert(eq0 + Seq::<usize>::empty() =~= eq0);
                    assert(self.scan_prefix(IndexQuery::Lte(k), n) == self.scan_prefix(IndexQuery::Lte(k), n - 1)
                        + Seq::<usize>::empty());
                    assert(self.scan_prefix(IndexQuery::Lte(k), n - 1) + Seq::<usize>::empty() =~= self.scan_prefix(
                        IndexQuery::Lte(k),
                        n - 1,
                    ));
                }
            }
        } else {
            assert(Seq::<usize>::empty() + Seq::<usize>::empty() =~= Seq::<usize>::empty());
        }
    }

    /// A position of entry `i` is recorded under entry `i`'s key.
    pub proof fn lemma_entry_in_pos_set(&self, i: int, p: usize)
        requires
            0 <= i < self.entry_count(),
            self.positions_at(i).contains(p),
        ensures
            self.pos_set(self.key_at(i)).contains(p),
    {
    }

    /// A recorded position belongs to an entry with its key.
    pub proof fn lemma_key_has_entry(&self, k: KeyView, p: usize)
        requires
            self.pos_set(k).contains(p),
        ensures
            exists|e: int| 0 <= e < self.entry_count() && self.key_at(e) == k,
    {
        let i = choose|i: int|
            0 <= i < self.entries@.len() && #[trigger] self.entries@[i].0@ == k && self.entries@[i].1@.contains(p);
        assert(self.key_at(i) == k);
    }

    /// A position is returned exactly when some satisfying entry holds it.
    pub proof fn lemma_scan_members(&self, q: IndexQuery, n: int)
        requires
            self.wf(),
            0 <= n <= self.entry_count(),
        ensures
            forall|p: usize| #[trigger] self.scan_prefix(q, n).contains(p) <==> exists|i: int|
                0 <= i < n && query_matches(q, self.key_at(i)) && #[trigger] self.pos_set(self.key_at(i)).contains(p),
        decreases n,
    {
        if n > 0 {
            self.lemma_scan_members(q, n - 1);
            self.lemma_unique_entry(n - 1, self.key_at(n - 1));
            let prev = self.scan_prefix(q, n - 1);
            let tail = if query_matches(q, self.entries@[n - 1].0@) {
                self.entries@[n - 1].1@
            } else {
                Seq::<usize>::empty()
            };
            assert(self.scan_prefix(q, n) == prev + tail);
            assert forall|p: usize| #[trigger] self.scan_prefix(q, n).contains(p) <==> exists|i: int|
                0 <= i < n && query_matches(q, self.key_at(i)) && #[trigger] self.pos_set(self.key_at(i)).contains(p) by {
                if self.scan_prefix(q, n).contains(p) {
                    let j = choose|j: int| 0 <= j < (prev + tail).len() && (prev + tail)[j] == p;
                    if j < prev.len() {
                        assert(prev[j] == p);
                        assert(prev.contains(p));
                    } else {
                        assert(tail[j - prev.len()] == p);
                        assert(self.entries@[n - 1].1@.contains(p));
                        assert(self.pos_set(self.key_at(n - 1)).contains(p));
                    }
                }
                if exists|i: int|
                    0 <= i < n && query_matches(q, self.key_at(i)) && #[trigger] self.pos_set(self.key_at(i)).contains(p) {
                    let i = choose|i: int|
                        0 <= i < n && query_matches(q, self.key_at(i)) && #[trigger] self.pos_set(self.key_at(i)).contains(p);
                    if i < n - 1 {
                        assert(prev.contains(p));
                        let j = choose|j: int| 0 <= j < prev.len() && prev[j] == p;
                        assert((prev + tail)[j] == p);
                    } else {
                        assert(self.entries@[n - 1].1@.contains(p));
                        let j = choose|j: int| 0 <= j < tail.len() && tail[j] == p;
                        assert((prev + tail)[prev.len() + j] == p);
                    }
                }
            }
        }
    }

    /// When every position belongs to the entry of its own key, the scan
    /// repeats no position and lists positions by non-decreasing key.
    pub proof fn lemma_scan_sorted(&self, q: IndexQuery, n: int, key_of: spec_fn(usize) -> KeyView)
        requires
            self.wf(),
            0 <= n <= self.entry_count(),
            forall|i: int, p: usize|
                0 <= i < self.entry_count() && #[trigger] self.positions_at(i).contains(p) ==> key_of(p) == self.key_at(i),
        ensures
            self.scan_prefix(q, n).no_duplicates(),
            forall|a: int, b: int|
                0 <= a < b < self.scan_prefix(q, n).len() ==> key_le(
                    key_of(#[trigger] self.scan_prefix(q, n)[a]),
                    key_of(#[trigger] self.scan_prefix(q, n)[b]),
                ),
            forall|a: int|
                0 <= a < self.scan_prefix(q, n).len() ==> exists|i: int|
                    0 <= i < n && #[trigger] key_of(self.scan_prefix(q, n)[a]) == self.key_at(i),
        decreases n,
    {
        if n > 0 {
            self.lemma_scan_sorted(q, n - 1, key_of);
            let prev = self.scan_prefix(q, n - 1);
            let tail = if query_matches(q, self.entries@[n - 1].0@) {
                self.entries@[n - 1].1@
            } else {
                Seq::<usize>::empty()
            };
            let s = prev + tail;
            assert(self.scan_prefix(q, n) == s);
            assert forall|a: int| 0 <= a < tail.len() implies key_of(#[trigger] tail[a]) == self.key_at(n - 1) by {
                assert(self.positions_at(n - 1).contains(tail[a]));
            }
            assert forall|a: int| 0 <= a < prev.len() implies key_lt(key_of(#[trigger] prev[a]), self.key_at(n - 1)) by {
                let i = choose|i: int| 0 <= i < n - 1 && #[trigger] key_of(prev[a]) == self.key_at(i);
                assert(key_lt(self.entries@[i].0@, self.entries@[n - 1].0@));
            }
            assert forall|a: int, b: int| 0 <= a < b < s.len() implies s[a] != s[b] by {
                if b < prev.len() {
                } else if a >= prev.len() {
                    assert(tail.no_duplicates());
                } else {
                    lemma_key_order(key_of(s[a]), self.key_at(n - 1), self.key_at(n - 1));
                }
            }
            assert forall|a: int, b: int| 0 <= a < b < s.len() implies key_le(key_of(#[trigger] s[a]), key_of(
                #[trigger] s[b],
            )) by {
                if b < prev.len() {
                    assert(s[a] == prev[a] && s[b] == prev[b]);
                } else if a >= prev.len() {
                    assert(s[a] == tail[a - prev.len()] && s[b] == tail[b - prev.len()]);
                } else {
                    assert(s[a] == prev[a] && s[b] == tail[b - prev.len()]);
                }
            }
            assert forall|a: int| 0 <= a < s.len() implies exists|i: int|
                0 <= i < n && #[trigger] key_of(s[a]) == self.key_at(i) by {
                if a < prev.len() {
                    assert(s[a] == prev[a]);
                } else {
                    assert(s[a] == tail[a - prev.len()]);
                    assert(key_of(s[a]) == self.key_at(n - 1));
                }
            }
        }
    }

    /// Move `position` from `old_key` to `new_key`. An auto-increment index
    /// refuses any change of key; a unique one refuses a key already taken.
    pub fn update(&mut self, position: usize, old_key: IndexKey, new_key: IndexKey, table_name: &str) -> (res: Result<(), IntersticeError>)
        requires
            old(self).wf(),
            old(self).pos_set(old_key@).contains(position),
            old_key@ != new_key@ ==> !old(self).pos_set(new_key@).contains(position),
        ensures
            final(self).wf(),
            final(self).field_name == old(self).field_name,
            final(self).field_index == old(self).field_index,
            final(self).unique == old(self).unique,
            final(self).auto_inc == old(self).auto_inc,
            final(self).auto_inc_state == old(self).auto_inc_state,
            final(self).index_type == old(self).index_type,
            old_key@ == new_key@ ==> res is Ok && final(self).entries@ == old(self).entries@,
            old_key@ != new_key@ && old(self).auto_inc ==> final(self).entries@ == old(self).entries@
                && (res matches Err(e) && auto_inc_update_refused(e, table_name@, old(self).field_name@)),
            old_key@ != new_key@ && !old(self).auto_inc && old(self).unique && old(self).has_key(new_key@)
                ==> final(self).entries@ == old(self).entries@ && (res matches Err(e) && unique_violation(
                e,
                table_name@,
                old(self).field_name@,
            )),
            old_key@ != new_key@ && !old(self).auto_inc && !(old(self).unique && old(self).has_key(new_key@))
                ==> res is Ok && forall|k: KeyView| #[trigger] final(self).pos_set(k) == if k == new_key@ {
                old(self).pos_set(k).insert(position)
            } else if k == old_key@ {
                old(self).pos_set(k).remove(position)
            } else {
                old(self).pos_set(k)
            },
    {
        if old_key.equals(&new_key) {
            return Ok(());
        }
        if self.auto_inc {
            return Err(
                IntersticeError::AutoIncUpdateNotAllowed {
                    table_name: table_name.to_owned(),
                    field_name: self.field_name.clone(),
                },
            );
        }
        let ghost mid_k = new_key@;
        let r = self.insert(position, new_key, table_name);
        match r {
            Ok(()) => {
                let ghost after_insert = *self;
                self.remove(position, old_key);
                proof {
                    assert forall|k: KeyView| #[trigger] self.pos_set(k) == if k == mid_k {
                        old(self).pos_set(k).insert(position)
                    } else if k == old_key@ {
                        old(self).pos_set(k).remove(position)
                    } else {
                        old(self).pos_set(k)
                    } by {
                        assert(after_insert.pos_set(k) == if k == mid_k {
                            old(self).pos_set(k).insert(position)
                        } else {
                            old(self).pos_set(k)
                        });
                    }
                }
                Ok(())
            },
            Err(e) => Err(e),
        }
    }

    /// The key this index files `row` under: the value of its field.
    pub fn key_from_row(&self, row: &Row) -> (res: Result<IndexKey, IntersticeError>)
        ensures
            match row_field_key(row@, self.field_index as int) {
                Some(k) => res matches Ok(kk) && kk@ == k,
                None => res matches Err(e) && e is Internal,
            },
            self.field_index < row@.entries.len() && row_field_key(row@, self.field_index as int) is None
                ==> (res matches Err(e) && internal_error(e, "value cannot be used as an index key"@)),
            self.field_index >= row@.entries.len() ==> (res matches Err(e) && internal_error(
                e,
                "Index field out of bounds"@,
            )),
    {
        if self.field_index >= row.entries.len() {
            return Err(internal("Index field out of bounds"));
        }
        match row.entries[self.field_index].to_index_key() {
            Some(k) => Ok(k),
            None => Err(internal("value cannot be used as an index key")),
        }
    }

    /// Advance this index's counter past the value `row` holds in its field.
    pub fn sync_auto_inc_from_row(&mut self, row: &Row, table_name: &str) -> (res: Result<(), IntersticeError>)
        ensures
            final(self).entries == old(self).entries,
            final(self).field_name == old(self).field_name,
            final(self).field_index == old(self).field_index,
            final(self).unique == old(self).unique,
            final(self).auto_inc == old(self).auto_inc,
            final(self).index_type == old(self).index_type,
            match index_sync_outcome(
                old(self).auto_inc,
                counter_view(old(self).auto_inc_state),
                old(self).field_name@,
                old(self).field_index as int,
                row@,
                table_name@,
            ) {
                Ok(c) => res is Ok && counter_view(final(self).auto_inc_state) == c,
                Err(m) => (res matches Err(e) && internal_error(e, m)) && final(self).auto_inc_state
                    == old(self).auto_inc_state,
            },
    {
        if !self.auto_inc {
            return Ok(());
        }
        if self.auto_inc_state.is_none() {
            return Err(IntersticeError::Internal(unsupported_field_message(&self.field_name, table_name)));
        }
        if self.field_index >= row.entries.len() {
            return Err(internal("Index field out of bounds"));
        }
        let mut st = self.auto_inc_state.take().unwrap();
        let r = st.sync_from_value(&row.entries[self.field_index]);
        self.auto_inc_state = Some(st);
        r
    }

    /// Fill `row`'s field with this index's next number, when the index is
    /// auto-increment.
    pub fn apply_auto_inc(&mut self, row: &mut Row, table_name: &str) -> (res: Result<(), IntersticeError>)
        ensures
            final(self).entries == old(self).entries,
            final(self).field_name == old(self).field_name,
            final(self).field_index == old(self).field_index,
            final(self).unique == old(self).unique,
            final(self).auto_inc == old(self).auto_inc,
            final(self).index_type == old(self).index_type,
            ({
                let (c, r) = index_prepare(
                    old(self).auto_inc,
                    counter_view(old(self).auto_inc_state),
                    old(self).field_name@,
                    old(self).field_index as int,
                    old(row)@,
                    table_name@,
                );
                &&& counter_view(final(self).auto_inc_state) == c
                &&& match r {
                    Ok(rv) => res is Ok && final(row)@ == rv,
                    Err(m) => (res matches Err(e) && internal_error(e, m)) && final(row)@ == old(row)@,
                }
            }),
    {
        if !self.auto_inc {
            return Ok(());
        }
        if self.auto_inc_state.is_none() {
            return Err(IntersticeError::Internal(unsupported_field_message(&self.field_name, table_name)));
        }
        let mut st = self.auto_inc_state.take().unwrap();
        let r = st.next_value();
        self.auto_inc_state = Some(st);
        let value = match r {
            Ok(v) => v,
            Err(e) => {
                return Err(e);
            },
        };
        if self.field_index < row.entries.len() {
            let ghost before = row@;
            row.entries.set(self.field_index, value);
            proof {
                assert(row@.entries =~= before.entries.update(self.field_index as int, value@));
            }
            Ok(())
        } else {
            Err(internal("Index field out of bounds"))
        }
    }

    /// The key of `row` in this index, for a row known to have one.
    pub fn key_of(&self, row: &Row) -> (k: IndexKey)
        requires
            row_field_key(row@, self.field_index as int) is Some,
        ensures
            row_field_key(row@, self.field_index as int) == Some(k@),
    {
        match self.key_from_row(row) {
            Ok(k) => k,
            Err(_) => vstd::pervasive::unreached(),
        }
    }

    /// The positions recorded for keys satisfying `query`, in key order.
    /// A hash index answers equality queries only.
    pub fn scan(&self, query: &IndexQuery, table_name: &str) -> (res: Result<Vec<usize>, IntersticeError>)
        requires
            self.wf(),
        ensures
            query_supported(self.index_type, *query) ==> (res matches Ok(r) && r@ == self.scan_result(
                *query,
            )),
            !query_supported(self.index_type, *query) ==> (res matches Err(e) && query_refused(
                e,
                table_name@,
                self.field_name@,
            )),
    {
        if self.index_type == IndexType::Hash {
            match query {
                IndexQuery::Eq(_) => {},
                _ => {
                    return Err(
                        IntersticeError::IndexQueryUnsupported {
                            table_name: table_name.to_owned(),
                            field_name: self.field_name.clone(),
                        },
                    );
                },
            }
        }
        let mut out: Vec<usize> = Vec::new();
        let mut i: usize = 0;
        while i < self.entries.len()
            invariant
                i <= self.entries@.len(),
                out@ == self.scan_prefix(*query, i as int),
            decreases self.entries.len() - i,
        {
            let ghost before = out@;
            if query.matches(&self.entries[i].0) {
                let ps = &self.entries[i].1;
                let mut j: usize = 0;
                while j < ps.len()
                    invariant
                        j <= ps@.len(),
                        ps@ == self.entries@[i as int].1@,
                        out@ == before + ps@.subrange(0, j as int),
                    decreases ps.len() - j,
                {
                    out.push(ps[j]);
                    j = j + 1;
                    proof {
                        assert(out@ =~= before + ps@.subrange(0, j as int));
                    }
                }
                proof {
                    assert(ps@.subrange(0, j as int) =~= ps@);
                }
            } else {
                proof {
                    assert(out@ =~= before + Seq::<usize>::empty());
                }
            }
            i = i + 1;
        }
        Ok(out)
    }
}

/// A copy of a list of positions.
fn copy_positions(v: &Vec<usize>) -> (r: Vec<usize>)
    ensures
        r@ == v@,
{
    let mut r: Vec<usize> = Vec::new();
    let mut i: usize = 0;
    while i < v.len()
        invariant
            i <= v.len(),
            r@ == v@.subrange(0, i as int),
        decreases v.len() - i,
    {
        r.push(v[i]);
        i = i + 1;
        proof {
            assert(r@ =~= v@.subrange(0, i as int));
        }
    }
    proof {
        assert(v@.subrange(0, i as int) =~= v@);
    }
    r
}

/// Where `x` stands in `v`, if it does.
fn find_position(v: &Vec<usize>, x: usize) -> (r: Option<usize>)
    ensures
        match r {
            Some(t) => t < v@.len() && v@[t as int] == x,
            None => !v@.contains(x),
        },
{
    let mut i: usize = 0;
    while i < v.len()
        invariant
            i <= v.len(),
            forall|j: int| 0 <= j < i ==> v@[j] != x,
        decreases v.len() - i,
    {
        if v[i] == x {
            return Some(i);
        }
        i = i + 1;
    }
    None
}

proof fn lemma_swap_remove_set(s: Seq<usize>, t: int)
    requires
        0 <= t < s.len(),
        s.no_duplicates(),
    ensures
        s.update(t, s.last()).drop_last().no_duplicates(),
        s.update(t, s.last()).drop_last().to_set() == s.to_set().remove(s[t]),
{
    let r = s.update(t, s.last()).drop_last();
    let n = s.len() - 1;
    assert forall|a: int, b: int| 0 <= a < b < r.len() implies r[a] != r[b] by {
        let sa = if a == t { n } else { a };
        let sb = if b == t { n } else { b };
        assert(r[a] == s[sa] && r[b] == s[sb]);
    }
    assert forall|x: usize| r.to_set().contains(x) <==> s.to_set().remove(s[t]).contains(x) by {
        if r.to_set().contains(x) {
            let a = choose|a: int| 0 <= a < r.len() && r[a] == x;
            let sa = if a == t { n } else { a };
            assert(s[sa] == x);
        }
        if s.to_set().remove(s[t]).contains(x) {
            let a = choose|a: int| 0 <= a < s.len() && s[a] == x;
            assert(a != t);
            if a == n {
                assert(r[t] == x);
            } else {
                assert(r[a] == x);
            }
        }
    }
    assert(r.to_set() =~= s.to_set().remove(s[t]));
}

proof fn lemma_replace_set(s: Seq<usize>, t: int, y: usize)
    requires
        0 <= t < s.len(),
        s.no_duplicates(),
        !s.contains(y),
    ensures
        s.update(t, y).no_duplicates(),
        s.update(t, y).to_set() == s.to_set().remove(s[t]).insert(y),
        s.update(t, y).len() == s.len(),
{
    let r = s.update(t, y);
    assert forall|a: int, b: int| 0 <= a < b < r.len() implies r[a] != r[b] by {
        if a != t && b != t {
        } else if a == t {
            assert(s.contains(r[b]));
        } else {
            assert(s.contains(r[a]));
        }
    }
    assert forall|x: usize| r.to_set().contains(x) <==> s.to_set().remove(s[t]).insert(y).contains(x) by {
        if r.to_set().contains(x) {
            let a = choose|a: int| 0 <= a < r.len() && r[a] == x;
        }
        if s.to_set().remove(s[t]).insert(y).contains(x) {
            if x == y {
                assert(r[t] == x);
            } else {
                let a = choose|a: int| 0 <= a < s.len() && s[a] == x;
                assert(r[a] == x);
            }
        }
    }
    assert(r.to_set() =~= s.to_set().remove(s[t]).insert(y));
}

} // verus!
