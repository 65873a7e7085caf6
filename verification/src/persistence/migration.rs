//! Table schema migrations: a registry of named migrations between schema
//! versions, and a record of the ones applied.
use vstd::prelude::*;
use crate::runtime::index::{keys_distinct, lookup, lemma_lookup_at};
use crate::runtime::value::same_text;

verus! {

/// A migration of one table from one schema version to another.
#[derive(Clone, Debug)]
pub struct TableMigration {
    pub name: String,
    pub from_version: u32,
    pub to_version: u32,
    pub table_name: String,
    pub description: String,
}

pub struct MigrationView {
    pub name: Seq<char>,
    pub from_version: u32,
    pub to_version: u32,
    pub table_name: Seq<char>,
    pub description: Seq<char>,
}

impl View for TableMigration {
    type V = MigrationView;

    open spec fn view(&self) -> MigrationView {
        MigrationView {
            name: self.name@,
            from_version: self.from_version,
            to_version: self.to_version,
            table_name: self.table_name@,
            description: self.description@,
        }
    }
}

/// A migration applies to exactly its own table and version step.
pub open spec fn migration_applies(m: MigrationView, table: Seq<char>, current: u32, target: u32) -> bool {
    m.table_name == table && m.from_version == current && m.to_version == target
}

/// A migration lies within a version span of a table.
pub open spec fn migration_within(m: MigrationView, table: Seq<char>, from: u32, to: u32) -> bool {
    m.table_name == table && m.from_version >= from && m.to_version <= to
}

impl TableMigration {
    pub fn new(name: String, table_name: String, from_version: u32, to_version: u32, description: String) -> (r: Self)
        ensures
            r@ == (MigrationView {
                name: name@,
                from_version,
                to_version,
                table_name: table_name@,
                description: description@,
            }),
    {
        TableMigration { name, from_version, to_version, table_name, description }
    }

    /// Whether this migration takes `table_name` from `current_version` to
    /// `target_version`.
    pub fn applies(&self, table_name: &str, current_version: u32, target_version: u32) -> (r: bool)
        ensures
            r == migration_applies(self@, table_name@, current_version, target_version),
    {
        same_text(self.table_name.as_str(), table_name) && self.from_version == current_version
            && self.to_version == target_version
    }
}

/// A migration that was applied, and when.
#[derive(Clone, Debug)]
pub struct MigrationRecord {
    pub migration_name: String,
    pub applied_at: u64,
    pub table_name: String,
}

pub struct RecordView {
    pub migration_name: Seq<char>,
    pub applied_at: u64,
    pub table_name: Seq<char>,
}

impl View for MigrationRecord {
    type V = RecordView;

    open spec fn view(&self) -> RecordView {
        RecordView { migration_name: self.migration_name@, applied_at: self.applied_at, table_name: self.table_name@ }
    }
}

impl MigrationRecord {
    pub fn new(migration_name: String, table_name: String, applied_at: u64) -> (r: Self)
        ensures
            r@ == (RecordView { migration_name: migration_name@, applied_at, table_name: table_name@ }),
    {
        MigrationRecord { migration_name, applied_at, table_name }
    }
}

/// Registered migrations, at most one per name, and the applied ones.
pub struct MigrationRegistry {
    migrations: Vec<TableMigration>,
    applied: Vec<MigrationRecord>,
}

impl MigrationRegistry {
    /// The registered migrations, in the order they were registered.
    pub closed spec fn migrations(&self) -> Seq<MigrationView> {
        self.migrations@.map_values(|m: TableMigration| m@)
    }

    /// The applied migrations, in the order they were recorded.
    pub closed spec fn applied(&self) -> Seq<RecordView> {
        self.applied@.map_values(|r: MigrationRecord| r@)
    }

    /// The registered migrations by name.
    pub open spec fn by_name(&self) -> Seq<(Seq<char>, MigrationView)> {
        self.migrations().map_values(|m: MigrationView| (m.name, m))
    }

    /// No two registered migrations share a name.
    pub open spec fn wf(&self) -> bool {
        keys_distinct(self.by_name())
    }

    pub fn new() -> (r: Self)
        ensures
            r.wf(),
            r.migrations() == Seq::<MigrationView>::empty(),
            r.applied() == Seq::<RecordView>::empty(),
    {
        let r = MigrationRegistry { migrations: Vec::new(), applied: Vec::new() };
        assert(r.migrations() =~= Seq::<MigrationView>::empty());
        assert(r.applied() =~= Seq::<RecordView>::empty());
        r
    }

    /// Where the migration named `name` is registered.
    fn position_of(&self, name: &str) -> (r: Option<usize>)
        ensures
            match r {
                Some(p) => p < self.migrations().len() && self.migrations()[p as int].name == name@,
                None => forall|i: int| 0 <= i < self.migrations().len() ==> (#[trigger] self.migrations()[i]).name != name@,
            },
    {
        let mut p: usize = 0;
        while p < self.migrations.len()
            invariant
                p <= self.migrations@.len(),
                forall|i: int| 0 <= i < p ==> (#[trigger] self.migrations()[i]).name != name@,
            decreases self.migrations.len() - p,
        {
            proof {
                assert(self.migrations()[p as int] == self.migrations@[p as int]@);
            }
            if same_text(self.migrations[p].name.as_str(), name) {
                return Some(p);
            }
            p = p + 1;
        }
        None
    }

    /// Register `migration`; refused when one with its name is registered.
    pub fn register(&mut self, migration: TableMigration) -> (r: Result<(), String>)
        requires
            old(self).wf(),
        ensures
            final(self).wf(),
            final(self).applied() == old(self).applied(),
            lookup(old(self).by_name(), migration@.name) is Some <==> r is Err,
            r is Ok ==> final(self).migrations() == old(self).migrations().push(migration@),
            r is Err ==> final(self).migrations() == old(self).migrations(),
            r matches Err(e) ==> e@ == "Migration "@ + migration@.name + " already registered"@,
    {
        let ghost m0 = self.migrations();
        match self.position_of(migration.name.as_str()) {
            Some(p) => {
                proof {
                    assert(self.by_name()[p as int].0 == migration@.name);
                }
                let mut e = "Migration ".to_owned();
                e.append(migration.name.as_str());
                e.append(" already registered");
                Err(e)
            },
            None => {
                let ghost mv = migration@;
                self.migrations.push(migration);
                proof {
                    assert(self.migrations() =~= m0.push(mv));
                    let b = self.by_name();
                    assert forall|i: int, j: int| 0 <= i < b.len() && 0 <= j < b.len() && i != j implies (
                    #[trigger] b[i]).0 != (#[trigger] b[j]).0 by {
                        if i < m0.len() && j < m0.len() {
                            assert(b[i] == old(self).by_name()[i] && b[j] == old(self).by_name()[j]);
                        } else if i < m0.len() {
                            assert(b[i].0 == m0[i].name);
                        } else {
                            assert(b[j].0 == m0[j].name);
                        }
                    }
                    assert forall|i: int| 0 <= i < old(self).by_name().len() implies (#[trigger] old(self).by_name()[i]).0 != mv.name by {
                        assert(old(self).by_name()[i].0 == m0[i].name);
                    }
                }
                Ok(())
            },
        }
    }

    /// The migration registered under `name`.
    pub fn get(&self, name: &str) -> (r: Option<&TableMigration>)
        requires
            self.wf(),
        ensures
            match r {
                Some(m) => lookup(self.by_name(), name@) == Some(m@),
                None => lookup(self.by_name(), name@) is None,
            },
    {
        match self.position_of(name) {
            Some(p) => {
                proof {
                    assert(self.by_name()[p as int] == (name@, self.migrations@[p as int]@));
                    lemma_lookup_at(self.by_name(), p as int);
                }
                Some(&self.migrations[p])
            },
            None => {
                proof {
                    assert forall|i: int| 0 <= i < self.by_name().len() implies (#[trigger] self.by_name()[i]).0 != name@ by {
                        assert(self.by_name()[i].0 == self.migrations()[i].name);
                    }
                }
                None
            },
        }
    }

    /// The registered migrations of `table_name` that lie within the span
    /// from `from_version` to `to_version`, in registration order.
    pub fn find_applicable(&self, table_name: &str, from_version: u32, to_version: u32) -> (r: Vec<&TableMigration>)
        ensures
            r@.map_values(|m: &TableMigration| m@) == self.migrations().filter(
                |m: MigrationView| migration_within(m, table_name@, from_version, to_version),
            ),
    {
        let ghost pred = |m: MigrationView| migration_within(m, table_name@, from_version, to_version);
        let mut r: Vec<&TableMigration> = Vec::new();
        let mut i: usize = 0;
        while i < self.migrations.len()
            invariant
                i <= self.migrations@.len(),
                pred == (|m: MigrationView| migration_within(m, table_name@, from_version, to_version)),
                r@.map_values(|m: &TableMigration| m@) == self.migrations().take(i as int).filter(pred),
            decreases self.migrations.len() - i,
        {
            let m = &self.migrations[i];
            proof {
                assert(self.migrations().take(i + 1).drop_last() =~= self.migrations().take(i as int));
                assert(self.migrations().take(i + 1).last() == m@);
                reveal_with_fuel(Seq::filter, 1);
            }
            let ghost before = r@;
            if same_text(m.table_name.as_str(), table_name) && m.from_version >= from_version && m.to_version
                <= to_version {
                r.push(m);
                proof {
                    assert(r@.map_values(|m: &TableMigration| m@) =~= before.map_values(|m: &TableMigration| m@).push(m@));
                }
            }
            i = i + 1;
        }
        assert(self.migrations().take(i as int) =~= self.migrations());
        r
    }

    /// Record that the migration `migration_name` of `table_name` was
    /// applied at `timestamp`.
    pub fn record_applied(&mut self, migration_name: String, table_name: String, timestamp: u64)
        requires
            old(self).wf(),
        ensures
            final(self).wf(),
            final(self).migrations() == old(self).migrations(),
            final(self).applied() == old(self).applied().push(
                RecordView { migration_name: migration_name@, applied_at: timestamp, table_name: table_name@ },
            ),
    {
        let ghost a0 = self.applied();
        let rec = MigrationRecord::new(migration_name, table_name, timestamp);
        self.applied.push(rec);
        assert(self.applied() =~= a0.push(rec@));
    }

    /// Whether a migration named `migration_name` was recorded as applied.
    pub fn is_applied(&self, migration_name: &str) -> (r: bool)
        ensures
            r == exists|i: int| 0 <= i < self.applied().len() && (#[trigger] self.applied()[i]).migration_name == migration_name@,
    {
        let mut i: usize = 0;
        while i < self.applied.len()
            invariant
                i <= self.applied@.len(),
                forall|j: int| 0 <= j < i ==> (#[trigger] self.applied()[j]).migration_name != migration_name@,
            decreases self.applied.len() - i,
        {
            proof {
                assert(self.applied()[i as int] == self.applied@[i as int]@);
            }
            if same_text(self.applied[i].migration_name.as_str(), migration_name) {
                return true;
            }
            i = i + 1;
        }
        false
    }

    /// The applied migrations of `table_name`, in the order recorded.
    pub fn get_applied_for_table(&self, table_name: &str) -> (r: Vec<&MigrationRecord>)
        ensures
            r@.map_values(|m: &MigrationRecord| m@) == self.applied().filter(|a: RecordView| a.table_name == table_name@),
    {
        let ghost pred = |a: RecordView| a.table_name == table_name@;
        let mut r: Vec<&MigrationRecord> = Vec::new();
        let mut i: usize = 0;
        while i < self.applied.len()
            invariant
                i <= self.applied@.len(),
                pred == (|a: RecordView| a.table_name == table_name@),
                r@.map_values(|m: &MigrationRecord| m@) == self.applied().take(i as int).filter(pred),
            decreases self.applied.len() - i,
        {
            let a = &self.applied[i];
            proof {
                assert(self.applied().take(i + 1).drop_last() =~= self.applied().take(i as int));
                assert(self.applied().take(i + 1).last() == a@);
                reveal_with_fuel(Seq::filter, 1);
            }
            let ghost before = r@;
            if same_text(a.table_name.as_str(), table_name) {
                r.push(a);
                proof {
                    assert(r@.map_values(|m: &MigrationRecord| m@) =~= before.map_values(|m: &MigrationRecord| m@).push(a@));
                }
            }
            i = i + 1;
        }
        assert(self.applied().take(i as int) =~= self.applied());
        r
    }

    /// Every registered migration, in registration order.
    pub fn all_migrations(&self) -> (r: Vec<&TableMigration>)
        ensures
            r@.map_values(|m: &TableMigration| m@) == self.migrations(),
    {
        let mut r: Vec<&TableMigration> = Vec::new();
        let mut i: usize = 0;
        while i < self.migrations.len()
            invariant
                i <= self.migrations@.len(),
                r@.len() == i,
                forall|j: int| 0 <= j < i ==> (#[trigger] r@[j])@ == self.migrations@[j]@,
            decreases self.migrations.len() - i,
        {
            r.push(&self.migrations[i]);
            i = i + 1;
        }
        assert(r@.map_values(|m: &TableMigration| m@) =~= self.migrations());
        r
    }

    /// The number of registered migrations.
    pub fn migration_count(&self) -> (r: usize)
        ensures
            r == self.migrations().len(),
    {
        self.migrations.len()
    }

    /// The number of applied migrations recorded.
    pub fn applied_count(&self) -> (r: usize)
        ensures
            r == self.applied().len(),
    {
        self.applied.len()
    }
}

impl Default for MigrationRegistry {
    fn default() -> (r: Self)
        ensures
            r.wf(),
            r.migrations() == Seq::<MigrationView>::empty(),
            r.applied() == Seq::<RecordView>::empty(),
    {
        Self::new()
    }
}

} // verus!
