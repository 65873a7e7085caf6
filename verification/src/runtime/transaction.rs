//! Applying the table changes of a reducer call: each change is made to
//! its table, and yields the events subscribers are told of and the
//! persistence work that the table's persistence kind asks for.
use vstd::prelude::*;
use crate::persistence::table_store::{LogOperation, op_step};
use crate::runtime::error::{IntersticeError, internal_error};
use crate::runtime::schema::{PersistenceKind, TableSchema};
use crate::runtime::table::{
    Table, UpdateRefusal, has_row_with_pk, initial_state, insert_refusal, insert_step, keyed_rows, pk_position,
    refusal_error, row_pk, row_sync, swap_removed, update_refusal, update_refusal_error,
};
use crate::node::NodeId;
use crate::runtime::table_access::ReplicaBinding;
use crate::runtime::value::{IndexKey, KeyView, Row, RowView, same_text};

verus! {

/// A change to a table, made by a reducer.
#[derive(Debug)]
pub enum Transaction {
    Insert { module_name: String, table_name: String, new_row: Row },
    Update { module_name: String, table_name: String, update_row: Row },
    Delete { module_name: String, table_name: String, deleted_row_id: IndexKey },
    Clear { module_name: String, table_name: String },
}

impl Transaction {
    pub open spec fn module(&self) -> Seq<char> {
        match self {
            Transaction::Insert { module_name, .. } => module_name@,
            Transaction::Update { module_name, .. } => module_name@,
            Transaction::Delete { module_name, .. } => module_name@,
            Transaction::Clear { module_name, .. } => module_name@,
        }
    }

    pub open spec fn table(&self) -> Seq<char> {
        match self {
            Transaction::Insert { table_name, .. } => table_name@,
            Transaction::Update { table_name, .. } => table_name@,
            Transaction::Delete { table_name, .. } => table_name@,
            Transaction::Clear { table_name, .. } => table_name@,
        }
    }
}

/// A change subscribers are told of.
#[derive(Debug)]
pub enum TableEvent {
    Insert { module_name: String, table_name: String, inserted_row: Row },
    Update { module_name: String, table_name: String, old_row: Row, new_row: Row },
    Delete { module_name: String, table_name: String, deleted_row: Row },
}

/// What a table event says: which kind, in which table, of which rows.
pub enum EventView {
    Insert { module: Seq<char>, table: Seq<char>, row: RowView },
    Update { module: Seq<char>, table: Seq<char>, old_row: RowView, new_row: RowView },
    Delete { module: Seq<char>, table: Seq<char>, row: RowView },
}

impl View for TableEvent {
    type V = EventView;

    open spec fn view(&self) -> EventView {
        match self {
            TableEvent::Insert { module_name, table_name, inserted_row } => EventView::Insert {
                module: module_name@,
                table: table_name@,
                row: inserted_row@,
            },
            TableEvent::Update { module_name, table_name, old_row, new_row } => EventView::Update {
                module: module_name@,
                table: table_name@,
                old_row: old_row@,
                new_row: new_row@,
            },
            TableEvent::Delete { module_name, table_name, deleted_row } => EventView::Delete {
                module: module_name@,
                table: table_name@,
                row: deleted_row@,
            },
        }
    }
}

pub open spec fn events_view(v: Seq<TableEvent>) -> Seq<EventView> {
    v.map_values(|e: TableEvent| e@)
}

/// The persistence work a change asks for.
#[derive(Debug)]
pub enum PersistAction {
    StatefulInsert { primary_key: IndexKey, row: Row },
    StatefulUpdate { primary_key: IndexKey, row: Row },
    StatefulDelete { primary_key: IndexKey },
    StatefulClear,
    Logged(LogOperation),
}

/// The outcome of applying one change.
#[derive(Debug)]
pub struct AppliedTransaction {
    pub events: Vec<TableEvent>,
    pub persistence: Option<PersistAction>,
}

/// The first of `tables` named `name`.
pub open spec fn table_position(tables: Seq<Table>, name: Seq<char>, n: int) -> Option<int>
    decreases n,
{
    if n <= 0 {
        None
    } else {
        match table_position(tables, name, n - 1) {
            Some(p) => Some(p),
            None => if tables[n - 1].table_name() == name {
                Some(n - 1)
            } else {
                None
            },
        }
    }
}

proof fn lemma_table_position_stays(tables: Seq<Table>, name: Seq<char>, k: int, n: int)
    requires
        0 <= k <= n,
        table_position(tables, name, k) is Some,
    ensures
        table_position(tables, name, n) == table_position(tables, name, k),
    decreases n - k,
{
    if n > k {
        lemma_table_position_stays(tables, name, k, n - 1);
    }
}

proof fn lemma_table_position_bound(tables: Seq<Table>, name: Seq<char>, n: int)
    ensures
        table_position(tables, name, n) matches Some(p) ==> 0 <= p < n && tables[p].table_name() == name,
    decreases n,
{
    if n > 0 {
        lemma_table_position_bound(tables, name, n - 1);
    }
}

/// Whether inserting `row` into `t` succeeds.
pub open spec fn insert_ok(t: Table, row: RowView) -> bool {
    insert_step(t.insert_state(), t.pk_auto_inc(), row, t.table_name()) is Some
}

/// The events of a change when there are subscribers; none otherwise.
pub open spec fn when_subscribed(has_subscriptions: bool, events: Seq<EventView>) -> Seq<EventView> {
    if has_subscriptions {
        events
    } else {
        Seq::empty()
    }
}

/// The stateful or logged persistence an insert or update asks for.
pub open spec fn row_persistence(kind: PersistenceKind, insert: bool, a: Option<PersistAction>, row: RowView) -> bool {
    match kind {
        PersistenceKind::Ephemeral => a is None,
        PersistenceKind::Stateful => if insert {
            a matches Some(PersistAction::StatefulInsert { primary_key: k, row: r }) && row_pk(row) == Some(k@) && r@ == row
        } else {
            a matches Some(PersistAction::StatefulUpdate { primary_key: k, row: r }) && row_pk(row) == Some(k@) && r@ == row
        },
        PersistenceKind::Logged => if insert {
            a matches Some(PersistAction::Logged(LogOperation::Insert { primary_key: k, row: Some(r) })) && row_pk(row) == Some(
                k@,
            ) && r@ == row
        } else {
            a matches Some(PersistAction::Logged(LogOperation::Update { primary_key: k, row: Some(r) })) && row_pk(row) == Some(
                k@,
            ) && r@ == row
        },
    }
}

/// The persistence a delete of key `k` asks for.
pub open spec fn delete_persistence(kind: PersistenceKind, a: Option<PersistAction>, k: KeyView) -> bool {
    match kind {
        PersistenceKind::Ephemeral => a is None,
        PersistenceKind::Stateful => a matches Some(PersistAction::StatefulDelete { primary_key: x }) && x@ == k,
        PersistenceKind::Logged => a matches Some(PersistAction::Logged(LogOperation::Delete { primary_key: x })) && x@ == k,
    }
}

/// The persistence a clear asks for.
pub open spec fn clear_persistence(kind: PersistenceKind, a: Option<PersistAction>) -> bool {
    match kind {
        PersistenceKind::Ephemeral => a is None,
        PersistenceKind::Stateful => a matches Some(PersistAction::StatefulClear),
        PersistenceKind::Logged => a matches Some(PersistAction::Logged(LogOperation::Clear)),
    }
}


/// What applying `tx` to the table `t0`, which became `t1`, gave: the
/// change each kind of transaction makes, the events (only when there are
/// subscribers) and the persistence work (only when logging).
pub open spec fn applied(
    t0: Table,
    t1: Table,
    tx: Transaction,
    r: Result<AppliedTransaction, IntersticeError>,
    has_subscriptions: bool,
    log_transaction: bool,
) -> bool {
    let kind = t0.table_schema().persistence;
    let m = tx.module();
    let tn = tx.table();
    &&& t1.wf()
    &&& t1.table_schema() == t0.table_schema()
    &&& t1.table_name() == t0.table_name()
    &&& match tx {
        Transaction::Insert { new_row, .. } => if insert_ok(t0, new_row@) {
            &&& insert_step(t0.insert_state(), t0.pk_auto_inc(), new_row@, t0.table_name()) == Some(t1.insert_state())
            &&& r matches Ok(a) && {
                &&& events_view(a.events@) == when_subscribed(
                    has_subscriptions,
                    seq![EventView::Insert { module: m, table: tn, row: new_row@ }],
                )
                &&& if log_transaction {
                    row_persistence(kind, true, a.persistence, new_row@)
                } else {
                    a.persistence is None
                }
            }
        } else {
            let (pc, infos, err) = row_sync(t0.pk_auto_inc(), t0.pk_counter(), t0.index_infos(), new_row@, t0.table_name());
            &&& t1.rows() == t0.rows()
            &&& t1.pk_counter() == pc
            &&& t1.index_infos() == infos
            &&& match err {
                Some(msg) => r matches Err(e) && internal_error(e, msg),
                None => match insert_refusal(t0.rows(), t0.index_infos(), new_row@, false) {
                    Some(rf) => r matches Err(e) && refusal_error(e, rf, t0.index_infos(), t0.table_name(), t0.pk_name()),
                    None => false,
                },
            }
        },
        Transaction::Update { update_row, .. } => if update_refusal(t0.rows(), t0.index_infos(), update_row@) is None {
            let p = pk_position(t0.rows(), row_pk(update_row@)->0);
            &&& t1.rows() == t0.rows().update(p, update_row@)
            &&& t1.pk_counter() == t0.pk_counter()
            &&& t1.index_infos() == t0.index_infos()
            &&& r matches Ok(a) && {
                &&& events_view(a.events@) == when_subscribed(
                    has_subscriptions,
                    seq![EventView::Update { module: m, table: tn, old_row: t0.rows()[p], new_row: update_row@ }],
                )
                &&& if log_transaction {
                    row_persistence(kind, false, a.persistence, update_row@)
                } else {
                    a.persistence is None
                }
            }
        } else {
            &&& t1.rows() == t0.rows()
            &&& t1.pk_counter() == t0.pk_counter()
            &&& t1.index_infos() == t0.index_infos()
            &&& update_refusal(t0.rows(), t0.index_infos(), update_row@) matches Some(rf) && (r matches Err(e)
                && update_refusal_error(e, rf, t0.index_infos(), t0.table_name(), update_row@))
        },
        Transaction::Delete { deleted_row_id, .. } => r matches Ok(a) && {
            &&& t1.pk_counter() == t0.pk_counter()
            &&& t1.index_infos() == t0.index_infos()
            &&& if has_row_with_pk(t0.rows(), deleted_row_id@) {
                exists|q: int|
                    0 <= q < t0.rows().len() && row_pk(#[trigger] t0.rows()[q]) == Some(deleted_row_id@) && t1.rows()
                        == swap_removed(t0.rows(), q) && events_view(a.events@) == when_subscribed(
                        has_subscriptions,
                        seq![EventView::Delete { module: m, table: tn, row: t0.rows()[q] }],
                    )
            } else {
                t1.rows() == t0.rows() && a.events@.len() == 0
            }
            &&& if log_transaction {
                delete_persistence(kind, a.persistence, deleted_row_id@)
            } else {
                a.persistence is None
            }
        },
        Transaction::Clear { .. } => r matches Ok(a) && {
            &&& t1.insert_state() == initial_state(t1.table_schema())
            &&& events_view(a.events@) == when_subscribed(
                has_subscriptions,
                t0.rows().map_values(|row: RowView| EventView::Delete { module: m, table: tn, row: row }),
            )
            &&& if log_transaction {
                clear_persistence(kind, a.persistence)
            } else {
                a.persistence is None
            }
        },
    }
}

/// The key of a row that is known to have one.
fn key_of_row(row: &Row) -> (k: IndexKey)
    requires
        row_pk(row@) is Some,
    ensures
        row_pk(row@) == Some(k@),
{
    match row.primary_key.to_index_key() {
        Some(k) => k,
        None => {
            proof {
                assert(false);
            }
            vstd::pervasive::unreached()
        },
    }
}

fn row_action(kind: PersistenceKind, insert: bool, row: &Row) -> (a: Option<PersistAction>)
    requires
        row_pk(row@) is Some,
    ensures
        row_persistence(kind, insert, a, row@),
{
    match kind {
        PersistenceKind::Ephemeral => None,
        PersistenceKind::Stateful => {
            let k = key_of_row(row);
            if insert {
                Some(PersistAction::StatefulInsert { primary_key: k, row: row.duplicate() })
            } else {
                Some(PersistAction::StatefulUpdate { primary_key: k, row: row.duplicate() })
            }
        },
        PersistenceKind::Logged => {
            let k = key_of_row(row);
            if insert {
                Some(PersistAction::Logged(LogOperation::Insert { primary_key: k, row: Some(row.duplicate()) }))
            } else {
                Some(PersistAction::Logged(LogOperation::Update { primary_key: k, row: Some(row.duplicate()) }))
            }
        },
    }
}


/// A replica table `t0` after taking in a row its source inserted, as
/// `t1`: the row is inserted, or, when the insert is refused, taken as an
/// update of the row with its key.
pub open spec fn replica_inserted(t0: Table, t1: Table, row: RowView) -> bool {
    let (pc, infos, err) = row_sync(t0.pk_auto_inc(), t0.pk_counter(), t0.index_infos(), row, t0.table_name());
    &&& t1.wf()
    &&& t1.table_schema() == t0.table_schema()
    &&& if insert_ok(t0, row) {
        insert_step(t0.insert_state(), t0.pk_auto_inc(), row, t0.table_name()) == Some(t1.insert_state())
    } else {
        &&& t1.pk_counter() == pc
        &&& t1.index_infos() == infos
        &&& t1.rows() == if update_refusal(t0.rows(), infos, row) is None {
            t0.rows().update(pk_position(t0.rows(), row_pk(row)->0), row)
        } else {
            t0.rows()
        }
    }
}

/// A replica table `t0` after taking in a row its source updated, as
/// `t1`: the row replaces the one with its key, or is inserted when no row
/// has that key.
pub open spec fn replica_updated(t0: Table, t1: Table, row: RowView) -> bool {
    &&& t1.wf()
    &&& t1.table_schema() == t0.table_schema()
    &&& match update_refusal(t0.rows(), t0.index_infos(), row) {
        None => {
            &&& t1.rows() == t0.rows().update(pk_position(t0.rows(), row_pk(row)->0), row)
            &&& t1.pk_counter() == t0.pk_counter()
            &&& t1.index_infos() == t0.index_infos()
        },
        Some(UpdateRefusal::RowNotFound) => if insert_ok(t0, row) {
            insert_step(t0.insert_state(), t0.pk_auto_inc(), row, t0.table_name()) == Some(t1.insert_state())
        } else {
            let (pc, infos, err) = row_sync(t0.pk_auto_inc(), t0.pk_counter(), t0.index_infos(), row, t0.table_name());
            t1.rows() == t0.rows() && t1.pk_counter() == pc && t1.index_infos() == infos
        },
        Some(_) => t1.insert_state() == t0.insert_state(),
    }
}

/// A replica table `t0` after its source deleted the row with key `k`, as
/// `t1`: that row is gone, if there was one.
pub open spec fn replica_deleted(t0: Table, t1: Table, k: KeyView) -> bool {
    &&& t1.wf()
    &&& t1.table_schema() == t0.table_schema()
    &&& t1.pk_counter() == t0.pk_counter()
    &&& t1.index_infos() == t0.index_infos()
    &&& if has_row_with_pk(t0.rows(), k) {
        t1.rows() == swap_removed(t0.rows(), pk_position(t0.rows(), k))
    } else {
        t1.rows() == t0.rows()
    }
}

/// The bindings that copy the table `table` of `module` on `node`.
pub open spec fn binding_copies(b: ReplicaBinding, node: NodeId, module: Seq<char>, table: Seq<char>) -> bool {
    b.source_node_id == node && b.source_module_name@ == module && b.source_table_name@ == table
}

/// The bindings among `bindings` that copy the table `source_table_name`
/// of `source_module_name` on `source_node_id`, in order.
pub fn bindings_for_source<'a>(
    bindings: &'a [ReplicaBinding],
    source_node_id: NodeId,
    source_module_name: &str,
    source_table_name: &str,
) -> (r: Vec<&'a ReplicaBinding>)
    ensures
        r@.map_values(|b: &ReplicaBinding| *b) == bindings@.filter(
            |b: ReplicaBinding| binding_copies(b, source_node_id, source_module_name@, source_table_name@),
        ),
{
    let ghost pred = |b: ReplicaBinding| binding_copies(b, source_node_id, source_module_name@, source_table_name@);
    let mut r: Vec<&'a ReplicaBinding> = Vec::new();
    let mut i: usize = 0;
    while i < bindings.len()
        invariant
            i <= bindings@.len(),
            pred == (|b: ReplicaBinding| binding_copies(b, source_node_id, source_module_name@, source_table_name@)),
            r@.map_values(|b: &ReplicaBinding| *b) == bindings@.take(i as int).filter(pred),
        decreases bindings.len() - i,
    {
        proof {
            assert(bindings@.take(i + 1).drop_last() =~= bindings@.take(i as int));
            assert(bindings@.take(i + 1).last() == bindings@[i as int]);
            reveal_with_fuel(Seq::filter, 1);
        }
        let b = &bindings[i];
        if b.source_node_id == source_node_id && same_text(b.source_module_name.as_str(), source_module_name) && same_text(
            b.source_table_name.as_str(),
            source_table_name,
        ) {
            let ghost before = r@;
            r.push(b);
            proof {
                assert(r@.map_values(|b: &ReplicaBinding| *b) =~= before.map_values(|b: &ReplicaBinding| *b).push(*b));
            }
        }
        i = i + 1;
    }
    assert(bindings@.take(i as int) =~= bindings@);
    r
}

/// The tables of a module, one per name.
pub struct TableSet {
    tables: Vec<Table>,
}

impl TableSet {
    pub closed spec fn tables(&self) -> Seq<Table> {
        self.tables@
    }

    /// The table named `name`, if there is one.
    pub open spec fn position(&self, name: Seq<char>) -> Option<int> {
        table_position(self.tables(), name, self.tables().len() as int)
    }

    /// Every table is well formed.
    pub open spec fn wf(&self) -> bool {
        forall|i: int| 0 <= i < self.tables().len() ==> (#[trigger] self.tables()[i]).wf()
    }

    pub fn new() -> (r: Self)
        ensures
            r.wf(),
            r.tables().len() == 0,
    {
        TableSet { tables: Vec::new() }
    }

    fn find(&self, name: &str) -> (r: Option<usize>)
        ensures
            match r {
                Some(i) => self.position(name@) == Some(i as int) && i < self.tables().len()
                    && self.tables()[i as int].table_name() == name@,
                None => self.position(name@) is None,
            },
    {
        proof {
            lemma_table_position_bound(self.tables(), name@, self.tables().len() as int);
        }
        let mut i: usize = 0;
        while i < self.tables.len()
            invariant
                i <= self.tables@.len(),
                table_position(self.tables(), name@, i as int) is None,
            decreases self.tables.len() - i,
        {
            if same_text(self.tables[i].name(), name) {
                proof {
                    lemma_table_position_stays(self.tables(), name@, i + 1, self.tables().len() as int);
                }
                return Some(i);
            }
            i = i + 1;
        }
        None
    }

    /// Add an empty table for `schema`, in place of a table of that name.
    pub fn add_table(&mut self, schema: TableSchema)
        requires
            old(self).wf(),
        ensures
            final(self).wf(),
            final(self).position(schema.name@) matches Some(p) && final(self).tables()[p].rows().len() == 0
                && final(self).tables()[p].table_schema() == schema,
    {
        let ghost name = schema.name@;
        let ghost sch = schema;
        let t = Table::new(schema);
        match self.find(t.name()) {
            Some(p) => {
                self.tables.set(p, t);
                proof {
                    lemma_table_position_bound(old(self).tables(), name, old(self).tables().len() as int);
                    assert forall|i: int| 0 <= i < old(self).tables().len() implies (#[trigger] old(self).tables()[i]).table_name()
                        == self.tables()[i].table_name() by {
                        if i != p {
                            assert(self.tables()[i] == old(self).tables()[i]);
                        }
                    }
                    lemma_same_names_same_position(old(self).tables(), self.tables(), name, self.tables().len() as int);
                    assert(self.tables()[p as int] == t);
                }
            },
            None => {
                let ghost before = self.tables();
                self.tables.push(t);
                proof {
                    assert(self.tables().drop_last() =~= before);
                    assert(table_position(self.tables(), name, before.len() as int) is None) by {
                        lemma_prefix_position(before, self.tables(), name, before.len() as int);
                    }
                    assert(self.tables()[before.len() as int] == t);
                    assert(t.table_name() == name);
                    assert(table_position(self.tables(), name, self.tables().len() as int) == Some(before.len() as int));
                    assert forall|i: int| 0 <= i < self.tables().len() implies (#[trigger] self.tables()[i]).wf() by {
                        if i < before.len() {
                            assert(self.tables()[i] == before[i]);
                        }
                    }
                }
            },
        }
    }

    /// The table named `name`.
    pub fn get(&self, name: &str) -> (r: Option<&Table>)
        ensures
            match r {
                Some(t) => self.position(name@) matches Some(p) && *t == self.tables()[p],
                None => self.position(name@) is None,
            },
    {
        match self.find(name) {
            Some(p) => Some(&self.tables[p]),
            None => None,
        }
    }

    /// Make the change `tx` to its table, and say what subscribers are to
    /// be told (only when `has_subscriptions`) and what the table's
    /// persistence kind asks to be stored (only when `log_transaction`). A
    /// delete of a missing row changes nothing and tells nothing, but is
    /// still stored.
    pub fn apply_transaction(&mut self, tx: Transaction, has_subscriptions: bool, log_transaction: bool) -> (r: Result<
        AppliedTransaction,
        IntersticeError,
    >)
        requires
            old(self).wf(),
        ensures
            final(self).wf(),
            final(self).tables().len() == old(self).tables().len(),
            match old(self).position(tx.table()) {
                None => final(self).tables() == old(self).tables() && (r matches Err(e) && e matches IntersticeError::TableNotFound {
                    module_name: mn,
                    table_name: tn,
                } && mn@ == tx.module() && tn@ == tx.table()),
                Some(p) => {
                    &&& forall|i: int|
                        0 <= i < old(self).tables().len() && i != p ==> #[trigger] final(self).tables()[i] == old(self).tables()[i]
                    &&& applied(old(self).tables()[p], final(self).tables()[p], tx, r, has_subscriptions, log_transaction)
                },
            },
    {
        let ghost tx0 = tx;
        let ghost m = tx.module();
        let ghost tn = tx.table();
        let (module_name, table_name) = match &tx {
            Transaction::Insert { module_name, table_name, .. } => (module_name.clone(), table_name.clone()),
            Transaction::Update { module_name, table_name, .. } => (module_name.clone(), table_name.clone()),
            Transaction::Delete { module_name, table_name, .. } => (module_name.clone(), table_name.clone()),
            Transaction::Clear { module_name, table_name } => (module_name.clone(), table_name.clone()),
        };
        let p = match self.find(table_name.as_str()) {
            Some(p) => p,
            None => {
                return Err(IntersticeError::TableNotFound { module_name, table_name });
            },
        };
        let ghost t0 = self.tables()[p as int];
        let ghost others = self.tables();
        assert(t0.wf());
        let kind = self.tables[p].persistence_kind();
        let mut events: Vec<TableEvent> = Vec::new();
        let mut persistence: Option<PersistAction> = None;
        match tx {
            Transaction::Insert { new_row, .. } => {
                let copy = new_row.duplicate();
                let res = self.tables[p].insert(new_row);
                proof {
                    t0.lemma_insert_is_step(&self.tables()[p as int], copy@, res is Ok);
                }
                match res {
                    Ok(()) => {},
                    Err(e) => {
                        proof {
                            t0.lemma_name_of_schema();
                            self.tables()[p as int].lemma_name_of_schema();
                            assert forall|i: int| 0 <= i < others.len() && i != p implies #[trigger] self.tables()[i] == others[i] by {}
                            assert forall|i: int| 0 <= i < self.tables().len() implies (#[trigger] self.tables()[i]).wf() by {
                                if i != p {
                                    assert(self.tables()[i] == others[i]);
                                }
                            }
                        }
                        return Err(e);
                    },
                }
                proof {
                    let t1 = self.tables()[p as int];
                    t1.lemma_keyed_rows();
                    assert(t1.rows()[t1.rows().len() - 1] == copy@);
                }
                let ghost ev = EventView::Insert { module: m, table: tn, row: copy@ };
                if has_subscriptions {
                    events.push(TableEvent::Insert { module_name, table_name, inserted_row: copy.duplicate() });
                    proof {
                        assert(events_view(events@) =~= seq![ev]);
                    }
                } else {
                    proof {
                        assert(events_view(events@) =~= Seq::<EventView>::empty());
                    }
                }
                if log_transaction {
                    persistence = row_action(kind, true, &copy);
                }
            },
            Transaction::Update { update_row, .. } => {
                let copy = update_row.duplicate();
                let res = self.tables[p].update(update_row);
                let old_row = match res {
                    Ok(o) => o,
                    Err(e) => {
                        proof {
                            t0.lemma_name_of_schema();
                            self.tables()[p as int].lemma_name_of_schema();
                            assert forall|i: int| 0 <= i < others.len() && i != p implies #[trigger] self.tables()[i] == others[i] by {}
                            assert forall|i: int| 0 <= i < self.tables().len() implies (#[trigger] self.tables()[i]).wf() by {
                                if i != p {
                                    assert(self.tables()[i] == others[i]);
                                }
                            }
                        }
                        return Err(e);
                    },
                };
                proof {
                    let t1 = self.tables()[p as int];
                    t1.lemma_keyed_rows();
                    let q = pk_position(t0.rows(), row_pk(copy@)->0);
                    assert(t1.rows()[q] == copy@);
                }
                let ghost q = pk_position(t0.rows(), row_pk(copy@)->0);
                let ghost ev = EventView::Update { module: m, table: tn, old_row: t0.rows()[q], new_row: copy@ };
                if has_subscriptions {
                    events.push(TableEvent::Update { module_name, table_name, old_row, new_row: copy.duplicate() });
                    proof {
                        assert(events_view(events@) =~= seq![ev]);
                    }
                } else {
                    proof {
                        assert(events_view(events@) =~= Seq::<EventView>::empty());
                    }
                }
                if log_transaction {
                    persistence = row_action(kind, false, &copy);
                }
            },
            Transaction::Delete { deleted_row_id, .. } => {
                match self.tables[p].delete(&deleted_row_id) {
                    Ok(deleted_row) => {
                        let ghost dv = deleted_row@;
                        if has_subscriptions {
                            events.push(TableEvent::Delete { module_name: module_name.clone(), table_name: table_name.clone(), deleted_row });
                        }
                        proof {
                            let t1 = self.tables()[p as int];
                            let q = choose|q: int|
                                0 <= q < t0.rows().len() && t0.rows()[q] == dv && row_pk(dv) == Some(deleted_row_id@)
                                    && t1.rows() == swap_removed(t0.rows(), q);
                            if has_subscriptions {
                                assert(events_view(events@) =~= seq![EventView::Delete { module: m, table: tn, row: t0.rows()[q] }]);
                            } else {
                                assert(events_view(events@) =~= Seq::<EventView>::empty());
                            }
                            assert(row_pk(t0.rows()[q]) == Some(deleted_row_id@));
                        }
                    },
                    Err(_) => {},
                }
                if log_transaction {
                    persistence = match kind {
                        PersistenceKind::Ephemeral => None,
                        PersistenceKind::Stateful => Some(PersistAction::StatefulDelete { primary_key: deleted_row_id }),
                        PersistenceKind::Logged => Some(PersistAction::Logged(LogOperation::Delete { primary_key: deleted_row_id })),
                    };
                }
            },
            Transaction::Clear { .. } => {
                let deleted_rows = self.tables[p].snapshot_rows();
                self.tables[p].clear();
                if has_subscriptions {
                    let mut k: usize = 0;
                    while k < deleted_rows.len()
                        invariant
                            k <= deleted_rows@.len(),
                            deleted_rows@.map_values(|x: Row| x@) == t0.rows(),
                            module_name@ == m,
                            table_name@ == tn,
                            events_view(events@) == t0.rows().take(k as int).map_values(
                                |row: RowView| EventView::Delete { module: m, table: tn, row: row },
                            ),
                        decreases deleted_rows.len() - k,
                    {
                        let ghost before = events@;
                        events.push(TableEvent::Delete {
                            module_name: module_name.clone(),
                            table_name: table_name.clone(),
                            deleted_row: deleted_rows[k].duplicate(),
                        });
                        proof {
                            assert(t0.rows()[k as int] == deleted_rows@[k as int]@);
                            assert(events_view(events@) =~= events_view(before).push(
                                EventView::Delete { module: m, table: tn, row: t0.rows()[k as int] },
                            ));
                            assert(t0.rows().take(k + 1) =~= t0.rows().take(k as int).push(t0.rows()[k as int]));
                        }
                        k = k + 1;
                    }
                    proof {
                        assert(t0.rows().take(k as int) =~= t0.rows());
                    }
                } else {
                    proof {
                        assert(events_view(events@) =~= Seq::<EventView>::empty());
                    }
                }
                if log_transaction {
                    persistence = match kind {
                        PersistenceKind::Ephemeral => None,
                        PersistenceKind::Stateful => Some(PersistAction::StatefulClear),
                        PersistenceKind::Logged => Some(PersistAction::Logged(LogOperation::Clear)),
                    };
                }
            },
        }
        proof {
            t0.lemma_name_of_schema();
            self.tables()[p as int].lemma_name_of_schema();
            assert forall|i: int| 0 <= i < others.len() && i != p implies #[trigger] self.tables()[i] == others[i] by {}
            assert forall|i: int| 0 <= i < self.tables().len() implies (#[trigger] self.tables()[i]).wf() by {
                if i != p {
                    assert(self.tables()[i] == others[i]);
                }
            }
        }
        Ok(AppliedTransaction { events, persistence })
    }

    /// Take in a row that the source of the replica table `table_name`
    /// inserted: insert it, or, when that is refused, apply it as an
    /// update. Nothing is logged and no event is raised.
    pub fn apply_replica_insert(&mut self, module_name: &str, table_name: &str, row: &Row)
        requires
            old(self).wf(),
        ensures
            final(self).wf(),
            final(self).tables().len() == old(self).tables().len(),
            match old(self).position(table_name@) {
                None => final(self).tables() == old(self).tables(),
                Some(p) => {
                    &&& forall|i: int|
                        0 <= i < old(self).tables().len() && i != p ==> #[trigger] final(self).tables()[i] == old(self).tables()[i]
                    &&& replica_inserted(old(self).tables()[p], final(self).tables()[p], row@)
                },
            },
    {
        let ghost before = self.tables();
        let first = self.apply_transaction(
            Transaction::Insert { module_name: module_name.to_owned(), table_name: table_name.to_owned(), new_row: row.duplicate() },
            false,
            false,
        );
        if first.is_err() {
            let ghost mid = self.tables();
            let _ = self.apply_transaction(
                Transaction::Update { module_name: module_name.to_owned(), table_name: table_name.to_owned(), update_row: row.duplicate() },
                false,
                false,
            );
            proof {
                lemma_same_position(before, mid, table_name@);
            }
        }
    }

    /// Take in a row that the source of the replica table `table_name`
    /// updated: apply the update, or insert the row when no row has its
    /// key. Nothing is logged and no event is raised.
    pub fn apply_replica_update(&mut self, module_name: &str, table_name: &str, new_row: &Row)
        requires
            old(self).wf(),
        ensures
            final(self).wf(),
            final(self).tables().len() == old(self).tables().len(),
            match old(self).position(table_name@) {
                None => final(self).tables() == old(self).tables(),
                Some(p) => {
                    &&& forall|i: int|
                        0 <= i < old(self).tables().len() && i != p ==> #[trigger] final(self).tables()[i] == old(self).tables()[i]
                    &&& replica_updated(old(self).tables()[p], final(self).tables()[p], new_row@)
                },
            },
    {
        let ghost before = self.tables();
        let first = self.apply_transaction(
            Transaction::Update { module_name: module_name.to_owned(), table_name: table_name.to_owned(), update_row: new_row.duplicate() },
            false,
            false,
        );
        match first {
            Err(IntersticeError::RowNotFound { .. }) => {
                let ghost mid = self.tables();
                proof {
                    lemma_same_position(before, mid, table_name@);
                    lemma_table_position_bound(before, table_name@, before.len() as int);
                    match table_position(before, table_name@, before.len() as int) {
                        Some(p) => {
                            before[p].lemma_pk_auto_inc_of_schema();
                            mid[p].lemma_pk_auto_inc_of_schema();
                        },
                        None => {},
                    }
                }
                let _ = self.apply_transaction(
                    Transaction::Insert { module_name: module_name.to_owned(), table_name: table_name.to_owned(), new_row: new_row.duplicate() },
                    false,
                    false,
                );
            },
            _ => {},
        }
    }

    /// Take in the delete of the row `deleted_row` at the source of the
    /// replica table `table_name`. Nothing is logged and no event is
    /// raised.
    pub fn apply_replica_delete(&mut self, module_name: &str, table_name: &str, deleted_row: &Row)
        requires
            old(self).wf(),
        ensures
            final(self).wf(),
            final(self).tables().len() == old(self).tables().len(),
            match (old(self).position(table_name@), row_pk(deleted_row@)) {
                (Some(p), Some(k)) => {
                    &&& forall|i: int|
                        0 <= i < old(self).tables().len() && i != p ==> #[trigger] final(self).tables()[i] == old(self).tables()[i]
                    &&& replica_deleted(old(self).tables()[p], final(self).tables()[p], k)
                },
                _ => final(self).tables() == old(self).tables(),
            },
    {
        match deleted_row.primary_key.to_index_key() {
            Some(primary_key) => {
                let _ = self.apply_transaction(
                    Transaction::Delete { module_name: module_name.to_owned(), table_name: table_name.to_owned(), deleted_row_id: primary_key },
                    false,
                    false,
                );
                proof {
                    let k = row_pk(deleted_row@)->0;
                    lemma_table_position_bound(old(self).tables(), table_name@, old(self).tables().len() as int);
                    match old(self).position(table_name@) {
                        Some(p) => {
                            let t0 = old(self).tables()[p];
                            t0.lemma_keyed_rows();
                            if has_row_with_pk(t0.rows(), k) {
                                let q = pk_position(t0.rows(), k);
                                assert(row_pk(t0.rows()[q]) == Some(k));
                            }
                        },
                        None => {},
                    }
                }
            },
            None => {},
        }
    }

    /// Replace the content of the replica table `table_name` by the rows
    /// its source holds. Returns whether the table exists.
    pub fn apply_replica_full_sync(&mut self, table_name: &str, rows: &Vec<Row>) -> (r: bool)
        requires
            old(self).wf(),
        ensures
            final(self).wf(),
            final(self).tables().len() == old(self).tables().len(),
            r == old(self).position(table_name@) is Some,
            match old(self).position(table_name@) {
                None => final(self).tables() == old(self).tables(),
                Some(p) => {
                    &&& forall|i: int|
                        0 <= i < old(self).tables().len() && i != p ==> #[trigger] final(self).tables()[i] == old(self).tables()[i]
                    &&& final(self).tables()[p].wf()
                    &&& final(self).tables()[p].table_schema() == old(self).tables()[p].table_schema()
                    &&& match crate::runtime::table::insert_all(
                        initial_state(old(self).tables()[p].table_schema()),
                        old(self).tables()[p].pk_auto_inc(),
                        rows@.map_values(|x: Row| x@),
                        old(self).tables()[p].table_name(),
                        rows@.len() as int,
                    ) {
                        Some(st) => final(self).tables()[p].insert_state() == st,
                        None => true,
                    }
                },
            },
    {
        match self.find(table_name) {
            Some(p) => {
                let mut copy: Vec<Row> = Vec::new();
                let mut i: usize = 0;
                while i < rows.len()
                    invariant
                        i <= rows@.len(),
                        copy@.map_values(|x: Row| x@) == rows@.take(i as int).map_values(|x: Row| x@),
                    decreases rows.len() - i,
                {
                    let ghost before = copy@;
                    copy.push(rows[i].duplicate());
                    proof {
                        assert(copy@.map_values(|x: Row| x@) =~= before.map_values(|x: Row| x@).push(rows@[i as int]@));
                        assert(rows@.take(i + 1).map_values(|x: Row| x@) =~= rows@.take(i as int).map_values(|x: Row| x@).push(
                            rows@[i as int]@,
                        ));
                    }
                    i = i + 1;
                }
                proof {
                    assert(rows@.take(i as int) =~= rows@);
                }
                let ghost others = self.tables();
                let _ = self.tables[p].restore_from_rows(copy);
                proof {
                    assert forall|i: int| 0 <= i < self.tables().len() implies (#[trigger] self.tables()[i]).wf() by {
                        if i != p {
                            assert(self.tables()[i] == others[i]);
                        }
                    }
                }
                true
            },
            None => false,
        }
    }
}

/// Changes that keep each table's name keep where each name is found.
proof fn lemma_same_position(a: Seq<Table>, b: Seq<Table>, name: Seq<char>)
    requires
        a.len() == b.len(),
        forall|i: int| 0 <= i < a.len() ==> (#[trigger] a[i]).table_name() == b[i].table_name(),
    ensures
        table_position(a, name, a.len() as int) == table_position(b, name, b.len() as int),
{
    lemma_same_names_same_position(a, b, name, a.len() as int);
}

proof fn lemma_same_names_same_position(a: Seq<Table>, b: Seq<Table>, name: Seq<char>, n: int)
    requires
        a.len() == b.len(),
        0 <= n <= a.len(),
        forall|i: int| 0 <= i < a.len() ==> (#[trigger] a[i]).table_name() == b[i].table_name(),
    ensures
        table_position(a, name, n) == table_position(b, name, n),
    decreases n,
{
    if n > 0 {
        lemma_same_names_same_position(a, b, name, n - 1);
    }
}

proof fn lemma_prefix_position(a: Seq<Table>, b: Seq<Table>, name: Seq<char>, n: int)
    requires
        0 <= n <= a.len(),
        n <= b.len(),
        forall|i: int| 0 <= i < n ==> (#[trigger] a[i]) == b[i],
    ensures
        table_position(a, name, n) == table_position(b, name, n),
    decreases n,
{
    if n > 0 {
        lemma_prefix_position(a, b, name, n - 1);
    }
}


/// What a change to a logged table records in its log, replayed on the
/// table as it was, gives the table as it became. A delete of a key no row
/// has is left out: it is recorded though it changed nothing, and its
/// replay fails.
pub proof fn lemma_logged_change_replays(
    t0: Table,
    t1: Table,
    tx: Transaction,
    r: Result<AppliedTransaction, IntersticeError>,
    has_subscriptions: bool,
)
    requires
        t0.wf(),
        applied(t0, t1, tx, r, has_subscriptions, true),
        t0.table_schema().persistence == PersistenceKind::Logged,
        r is Ok,
        tx matches Transaction::Delete { deleted_row_id, .. } ==> has_row_with_pk(t0.rows(), deleted_row_id@),
    ensures
        r matches Ok(a) && a.persistence matches Some(PersistAction::Logged(op)) && op_step(
            t0.insert_state(),
            t0.table_schema(),
            op,
        ) == Some(t1.insert_state()),
{
    t0.lemma_name_of_schema();
    t0.lemma_pk_auto_inc_of_schema();
    t0.lemma_keyed_rows();
    let a = r->Ok_0;
    match tx {
        Transaction::Insert { new_row, .. } => {
            assert(insert_ok(t0, new_row@));
        },
        Transaction::Update { update_row, .. } => {
            assert(update_refusal(t0.rows(), t0.index_infos(), update_row@) is None);
        },
        Transaction::Delete { deleted_row_id, .. } => {
            let k = deleted_row_id@;
            let q = choose|q: int|
                0 <= q < t0.rows().len() && row_pk(#[trigger] t0.rows()[q]) == Some(k) && t1.rows() == swap_removed(
                    t0.rows(),
                    q,
                ) && events_view(a.events@) == when_subscribed(
                    has_subscriptions,
                    seq![EventView::Delete { module: tx.module(), table: tx.table(), row: t0.rows()[q] }],
                );
            let p = pk_position(t0.rows(), k);
            assert(row_pk(t0.rows()[p]) == Some(k));
            assert(keyed_rows(t0.rows()));
            assert(p == q);
        },
        Transaction::Clear { .. } => {},
    }
}

/// The update event of an applied update reports the row the table held
/// under the updated row's key before the change, and the new row: the old
/// row was in the table, has the same key, is the only row with that key,
/// and the table now holds the new row where it stood.
pub proof fn lemma_update_event_reports_replaced_row(
    t0: Table,
    t1: Table,
    tx: Transaction,
    r: Result<AppliedTransaction, IntersticeError>,
    log_transaction: bool,
)
    requires
        t0.wf(),
        applied(t0, t1, tx, r, true, log_transaction),
        tx is Update,
        r is Ok,
    ensures
        ({
            let update_row = tx->update_row@;
            let evs = events_view(r->Ok_0.events@);
            &&& evs.len() == 1
            &&& evs[0] matches EventView::Update { old_row, new_row, .. } && {
                &&& new_row == update_row
                &&& row_pk(old_row) == row_pk(update_row)
                &&& exists|p: int|
                    0 <= p < t0.rows().len() && #[trigger] t0.rows()[p] == old_row && t1.rows() == t0.rows().update(
                        p,
                        update_row,
                    )
                &&& forall|i: int|
                    0 <= i < t0.rows().len() && row_pk(#[trigger] t0.rows()[i]) == row_pk(update_row) ==> t0.rows()[i]
                        == old_row
            }
        }),
{
    t0.lemma_keyed_rows();
    let update_row = tx->update_row@;
    assert(update_refusal(t0.rows(), t0.index_infos(), update_row) is None);
    let k = row_pk(update_row)->0;
    assert(has_row_with_pk(t0.rows(), k));
    let p = pk_position(t0.rows(), k);
    assert(0 <= p < t0.rows().len() && row_pk(t0.rows()[p]) == Some(k));
    assert forall|i: int|
        0 <= i < t0.rows().len() && row_pk(#[trigger] t0.rows()[i]) == row_pk(update_row) implies t0.rows()[i]
        == t0.rows()[p] by {
        if i != p {
            assert(row_pk(t0.rows()[i]) != row_pk(t0.rows()[p]));
        }
    }
}

/// The delete event of an applied delete reports the row the table held
/// under the deleted key, and that row is gone afterwards; a delete of a
/// key no row has changes nothing and reports nothing.
pub proof fn lemma_delete_event_reports_removed_row(
    t0: Table,
    t1: Table,
    tx: Transaction,
    r: Result<AppliedTransaction, IntersticeError>,
    log_transaction: bool,
)
    requires
        t0.wf(),
        applied(t0, t1, tx, r, true, log_transaction),
        tx is Delete,
    ensures
        ({
            let k = tx->deleted_row_id@;
            let evs = events_view(r->Ok_0.events@);
            &&& r is Ok
            &&& has_row_with_pk(t0.rows(), k) ==> {
                &&& evs.len() == 1
                &&& evs[0] matches EventView::Delete { row, .. } && {
                    &&& row_pk(row) == Some(k)
                    &&& t0.rows().contains(row)
                    &&& !has_row_with_pk(t1.rows(), k)
                    &&& t1.rows().len() == t0.rows().len() - 1
                }
            }
            &&& !has_row_with_pk(t0.rows(), k) ==> evs.len() == 0 && t1.rows() == t0.rows()
        }),
{
    t0.lemma_keyed_rows();
    let k = tx->deleted_row_id@;
    if has_row_with_pk(t0.rows(), k) {
        let q = choose|q: int|
            0 <= q < t0.rows().len() && row_pk(#[trigger] t0.rows()[q]) == Some(k) && t1.rows() == swap_removed(
                t0.rows(),
                q,
            ) && events_view(r->Ok_0.events@) == when_subscribed(
                true,
                seq![EventView::Delete { module: tx.module(), table: tx.table(), row: t0.rows()[q] }],
            );
        crate::runtime::table::lemma_delete_then_absent(t0.rows(), q, k);
        assert(t0.rows().contains(t0.rows()[q]));
    }
}

/// The insert event of an applied insert reports the inserted row.
pub proof fn lemma_insert_event_reports_row(
    t0: Table,
    t1: Table,
    tx: Transaction,
    r: Result<AppliedTransaction, IntersticeError>,
    log_transaction: bool,
)
    requires
        applied(t0, t1, tx, r, true, log_transaction),
        tx is Insert,
        r is Ok,
    ensures
        events_view(r->Ok_0.events@).len() == 1,
        events_view(r->Ok_0.events@)[0] matches EventView::Insert { row, module, table } && row == tx->new_row@
            && module == tx.module() && table == tx.table(),
{
}

} // verus!
