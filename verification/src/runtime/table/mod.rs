//! A table: rows addressed by primary key, with secondary indexes and
//! auto-increment counters kept in step with every change.
pub mod auto_inc;
pub mod index;

use vstd::prelude::*;
use crate::runtime::error::{IntersticeError, auto_inc_update_refused, internal, internal_error, query_refused, unique_violation};
use crate::runtime::schema::{FieldDef, IndexQuery, IndexSchema, IndexType, IntersticeType, PersistenceKind, TableSchema, query_matches, query_supported, query_bounds_ok};
use crate::runtime::table::auto_inc::{AutoIncState, AutoIncView, auto_inc_kind_of, auto_inc_step, auto_inc_sync, counter_view, overflow_text};
use crate::runtime::table::index::{TableIndex, index_prepare, index_sync_outcome, row_field_key, unsupported_field_message};
use crate::runtime::value::{IndexKey, KeyOrder, KeyView, Row, RowView, compare_strings, key_le, value_key, lemma_chars_lt_irreflexive, lemma_key_order};

verus! {

/// What the table knows about one of its indexes.
pub struct IndexInfo {
    pub field_name: Seq<char>,
    pub field_index: int,
    pub unique: bool,
    pub auto_inc: bool,
    pub index_type: IndexType,
    pub counter: Option<AutoIncView>,
}


/// The primary key of a row, if its value can be a key.
pub open spec fn row_pk(r: RowView) -> Option<KeyView> {
    value_key(r.primary_key)
}

/// The last field of the schema with name `name`, among the first `n`.
pub open spec fn field_position(fields: Seq<FieldDef>, name: Seq<char>, n: int) -> Option<int>
    decreases n,
{
    if n <= 0 {
        None
    } else if fields[n - 1].name@ == name {
        Some(n - 1)
    } else {
        field_position(fields, name, n - 1)
    }
}

/// The index a table builds for one declared index, if its field exists.
pub open spec fn index_info_for(schema: TableSchema, d: IndexSchema) -> Option<IndexInfo> {
    match field_position(schema.fields@, d.field_name@, schema.fields@.len() as int) {
        None => None,
        Some(pos) => Some(
            IndexInfo {
                field_name: d.field_name@,
                field_index: pos,
                unique: d.unique || d.auto_inc,
                auto_inc: d.auto_inc,
                index_type: d.index_type,
                counter: if d.auto_inc {
                    match auto_inc_kind_of(schema.fields@[pos].field_type) {
                        Some(k) => Some(AutoIncView { kind: k, next: 0 }),
                        None => None,
                    }
                } else {
                    None
                },
            },
        ),
    }
}

/// The indexes a table builds from the first `n` declared indexes: one per
/// declaration whose field exists, in declaration order.
pub open spec fn schema_indexes(schema: TableSchema, n: int) -> Seq<IndexInfo>
    decreases n,
{
    if n <= 0 {
        Seq::empty()
    } else {
        let prev = schema_indexes(schema, n - 1);
        match index_info_for(schema, schema.indexes@[n - 1]) {
            Some(info) => prev.push(info),
            None => prev,
        }
    }
}

/// No two rows share a primary key.
pub open spec fn pks_distinct(rows: Seq<Row>) -> bool {
    forall|i: int, j: int|
        0 <= i < rows.len() && 0 <= j < rows.len() && i != j ==> row_pk(#[trigger] rows[i]@) != row_pk(
            #[trigger] rows[j]@,
        )
}

/// An index is well formed, every row has a key in its field, and it
/// records exactly the rows whose field holds each key.
pub open spec fn index_ok(idx: TableIndex, rows: Seq<Row>) -> bool {
    &&& idx.wf()
    &&& forall|i: int| 0 <= i < rows.len() ==> (row_field_key(#[trigger] rows[i]@, idx.field_index as int)) is Some
    &&& index_matches(idx, rows)
}

pub open spec fn index_matches(idx: TableIndex, rows: Seq<Row>) -> bool {
    forall|k: KeyView, p: usize|
        #[trigger] idx.pos_set(k).contains(p) <==> (p < rows.len() && row_field_key(
            rows[p as int]@,
            idx.field_index as int,
        ) == Some(k))
}

/// Two indexes agree on everything but their recorded positions.
pub open spec fn same_index_shape(a: TableIndex, b: TableIndex) -> bool {
    &&& a.field_name == b.field_name
    &&& a.field_index == b.field_index
    &&& a.unique == b.unique
    &&& a.auto_inc == b.auto_inc
    &&& a.auto_inc_state == b.auto_inc_state
    &&& a.index_type == b.index_type
}

/// `s` with its element `p` replaced by its last one, and shortened by one.
pub open spec fn swap_removed<A>(s: Seq<A>, p: int) -> Seq<A> {
    s.update(p, s.last()).drop_last()
}

/// The message for an auto-increment primary key whose type has no counter.
pub open spec fn unsupported_pk_text(table: Seq<char>) -> Seq<char> {
    "auto_inc is not supported for primary key in table '"@ + table + "'"@
}

/// What syncing the primary-key counter from a row gives.
pub open spec fn pk_sync_outcome(auto_inc: bool, c: Option<AutoIncView>, row: RowView, table: Seq<char>) -> Result<
    Option<AutoIncView>,
    Seq<char>,
> {
    if !auto_inc {
        Ok(c)
    } else {
        match c {
            None => Err(unsupported_pk_text(table)),
            Some(st) => match auto_inc_sync(st, row.primary_key) {
                Ok(n) => Ok(Some(n)),
                Err(m) => Err(m),
            },
        }
    }
}

/// Syncing the counters of the first `n` indexes, in order, stopping at
/// the first error: the updated indexes and the error, if any.
pub open spec fn sync_indexes(infos: Seq<IndexInfo>, row: RowView, table: Seq<char>, n: int) -> (Seq<IndexInfo>, Option<Seq<char>>)
    decreases n,
{
    if n <= 0 {
        (infos, None)
    } else {
        let (prev, err) = sync_indexes(infos, row, table, n - 1);
        if err is Some {
            (prev, err)
        } else {
            let info = prev[n - 1];
            match index_sync_outcome(info.auto_inc, info.counter, info.field_name, info.field_index, row, table) {
                Ok(c) => (prev.update(n - 1, IndexInfo { counter: c, ..info }), None),
                Err(m) => (prev, Some(m)),
            }
        }
    }
}

/// Once syncing has stopped on an error, later indexes change nothing.
pub proof fn lemma_sync_stops(infos: Seq<IndexInfo>, row: RowView, table: Seq<char>, k: int, n: int)
    requires
        0 <= k <= n,
        sync_indexes(infos, row, table, k).1 is Some,
    ensures
        sync_indexes(infos, row, table, n) == sync_indexes(infos, row, table, k),
    decreases n - k,
{
    if n > k {
        lemma_sync_stops(infos, row, table, k, n - 1);
    }
}

/// Syncing every counter of a table from a row: the new primary-key
/// counter, the new indexes, and the error that stopped it, if any.
pub open spec fn row_sync(pk_auto_inc: bool, pk_counter: Option<AutoIncView>, infos: Seq<IndexInfo>, row: RowView, table: Seq<char>) -> (
    Option<AutoIncView>,
    Seq<IndexInfo>,
    Option<Seq<char>>,
) {
    match pk_sync_outcome(pk_auto_inc, pk_counter, row, table) {
        Err(m) => (pk_counter, infos, Some(m)),
        Ok(c) => {
            let (infos2, err) = sync_indexes(infos, row, table, infos.len() as int);
            (c, infos2, err)
        },
    }
}

/// Why a row cannot go into a table.
pub enum InsertRefusal {
    /// The primary key is not a key value.
    PkNotKey,
    /// Another row has the same primary key.
    PkTaken,
    /// The row lacks the field of index `t`.
    FieldMissing(int),
    /// The field of index `t` does not hold a key value.
    FieldNotKey(int),
    /// Index `t` is unique and another row already has that key.
    FieldTaken(int),
}

/// The refusal that index `t` raises against `row`; when `only_unique`,
/// only unique indexes are consulted.
pub open spec fn index_refusal(rows: Seq<RowView>, info: IndexInfo, t: int, row: RowView, only_unique: bool) -> Option<InsertRefusal> {
    if only_unique && !info.unique {
        None
    } else if info.field_index >= row.entries.len() {
        Some(InsertRefusal::FieldMissing(t))
    } else {
        match value_key(row.entries[info.field_index]) {
            None => Some(InsertRefusal::FieldNotKey(t)),
            Some(k) => if info.unique && (exists|i: int|
                0 <= i < rows.len() && row_field_key(#[trigger] rows[i], info.field_index) == Some(k)) {
                Some(InsertRefusal::FieldTaken(t))
            } else {
                None
            },
        }
    }
}

/// The first refusal among the first `n` indexes.
pub open spec fn first_index_refusal(rows: Seq<RowView>, infos: Seq<IndexInfo>, row: RowView, only_unique: bool, n: int) -> Option<InsertRefusal>
    decreases n,
{
    if n <= 0 {
        None
    } else {
        match first_index_refusal(rows, infos, row, only_unique, n - 1) {
            Some(r) => Some(r),
            None => index_refusal(rows, infos[n - 1], n - 1, row, only_unique),
        }
    }
}

/// Once an index refuses, later ones do not change the first refusal.
pub proof fn lemma_refusal_stops(rows: Seq<RowView>, infos: Seq<IndexInfo>, row: RowView, only_unique: bool, k: int, n: int)
    requires
        0 <= k <= n,
        first_index_refusal(rows, infos, row, only_unique, k) is Some,
    ensures
        first_index_refusal(rows, infos, row, only_unique, n) == first_index_refusal(rows, infos, row, only_unique, k),
    decreases n - k,
{
    if n > k {
        lemma_refusal_stops(rows, infos, row, only_unique, k, n - 1);
    }
}

/// A refusal names an index among those checked.
pub proof fn lemma_refusal_bound(rows: Seq<RowView>, infos: Seq<IndexInfo>, row: RowView, only_unique: bool, n: int)
    ensures
        match first_index_refusal(rows, infos, row, only_unique, n) {
            Some(InsertRefusal::FieldMissing(t)) => 0 <= t < n,
            Some(InsertRefusal::FieldNotKey(t)) => 0 <= t < n,
            Some(InsertRefusal::FieldTaken(t)) => 0 <= t < n,
            _ => true,
        },
    decreases n,
{
    if n > 0 {
        lemma_refusal_bound(rows, infos, row, only_unique, n - 1);
    }
}

/// With no refusal among the first `n` indexes, none of them refuses.
pub proof fn lemma_no_refusal_each(rows: Seq<RowView>, infos: Seq<IndexInfo>, row: RowView, only_unique: bool, n: int)
    requires
        first_index_refusal(rows, infos, row, only_unique, n) is None,
    ensures
        forall|u: int| 0 <= u < n ==> index_refusal(rows, #[trigger] infos[u], u, row, only_unique) is None,
    decreases n,
{
    if n > 0 {
        lemma_no_refusal_each(rows, infos, row, only_unique, n - 1);
    }
}

/// Refusals depend only on the fields, uniqueness and names of indexes.
pub proof fn lemma_refusal_same_shape(rows: Seq<RowView>, a: Seq<IndexInfo>, b: Seq<IndexInfo>, row: RowView, only_unique: bool, n: int)
    requires
        a.len() == b.len(),
        forall|u: int|
            #![trigger a[u]]
            0 <= u < a.len() ==> a[u].field_index == b[u].field_index && a[u].unique == b[u].unique
                && a[u].field_name == b[u].field_name,
        n <= a.len(),
    ensures
        first_index_refusal(rows, a, row, only_unique, n) == first_index_refusal(rows, b, row, only_unique, n),
        n == a.len() ==> insert_refusal(rows, a, row, only_unique) == insert_refusal(rows, b, row, only_unique),
    decreases n,
{
    if n > 0 {
        lemma_refusal_same_shape(rows, a, b, row, only_unique, n - 1);
        assert(a[n - 1].field_index == b[n - 1].field_index);
    }
}

/// The first reason `row` cannot be inserted, checking the primary key and
/// then the indexes in order.
pub open spec fn insert_refusal(rows: Seq<RowView>, infos: Seq<IndexInfo>, row: RowView, only_unique: bool) -> Option<InsertRefusal> {
    match row_pk(row) {
        None => Some(InsertRefusal::PkNotKey),
        Some(k) => if has_row_with_pk(rows, k) {
            Some(InsertRefusal::PkTaken)
        } else {
            first_index_refusal(rows, infos, row, only_unique, infos.len() as int)
        },
    }
}

/// `e` is the error that reports refusal `r`.
pub open spec fn refusal_error(e: IntersticeError, r: InsertRefusal, infos: Seq<IndexInfo>, table: Seq<char>, pk_name: Seq<char>) -> bool {
    match r {
        InsertRefusal::PkNotKey => internal_error(e, "value cannot be used as an index key"@),
        InsertRefusal::PkTaken => unique_violation(e, table, pk_name),
        InsertRefusal::FieldMissing(_) => internal_error(e, "Index field out of bounds"@),
        InsertRefusal::FieldNotKey(_) => internal_error(e, "value cannot be used as an index key"@),
        InsertRefusal::FieldTaken(t) => unique_violation(e, table, infos[t].field_name),
    }
}

/// Where the row with primary key `k` stands.
pub open spec fn pk_position(rows: Seq<RowView>, k: KeyView) -> int {
    choose|i: int| 0 <= i < rows.len() && row_pk(#[trigger] rows[i]) == Some(k)
}

/// Why a row cannot replace the stored row with its primary key.
pub enum UpdateRefusal {
    /// The primary key is not a key value.
    PkNotKey,
    /// No row has that primary key.
    RowNotFound,
    /// The row lacks the field of index `t`.
    FieldMissing(int),
    /// The field of index `t` does not hold a key value.
    FieldNotKey(int),
    /// Index `t` is auto-increment and the row changes its value.
    AutoIncChanged(int),
    /// Index `t` is unique and another row already has the new key.
    FieldTaken(int),
}

/// The refusal index `t` raises against replacing `old_row` by `row`.
pub open spec fn index_update_refusal(rows: Seq<RowView>, info: IndexInfo, t: int, old_row: RowView, row: RowView) -> Option<UpdateRefusal> {
    if info.field_index >= row.entries.len() {
        Some(UpdateRefusal::FieldMissing(t))
    } else {
        match value_key(row.entries[info.field_index]) {
            None => Some(UpdateRefusal::FieldNotKey(t)),
            Some(k) => if row_field_key(old_row, info.field_index) == Some(k) {
                None
            } else if info.auto_inc {
                Some(UpdateRefusal::AutoIncChanged(t))
            } else if info.unique && (exists|i: int|
                0 <= i < rows.len() && row_field_key(#[trigger] rows[i], info.field_index) == Some(k)) {
                Some(UpdateRefusal::FieldTaken(t))
            } else {
                None
            },
        }
    }
}

/// The first refusal among the first `n` indexes.
pub open spec fn first_update_refusal(rows: Seq<RowView>, infos: Seq<IndexInfo>, old_row: RowView, row: RowView, n: int) -> Option<UpdateRefusal>
    decreases n,
{
    if n <= 0 {
        None
    } else {
        match first_update_refusal(rows, infos, old_row, row, n - 1) {
            Some(r) => Some(r),
            None => index_update_refusal(rows, infos[n - 1], n - 1, old_row, row),
        }
    }
}

/// The first reason `row` cannot replace the stored row with its primary key.
pub open spec fn update_refusal(rows: Seq<RowView>, infos: Seq<IndexInfo>, row: RowView) -> Option<UpdateRefusal> {
    match row_pk(row) {
        None => Some(UpdateRefusal::PkNotKey),
        Some(k) => if !has_row_with_pk(rows, k) {
            Some(UpdateRefusal::RowNotFound)
        } else {
            first_update_refusal(rows, infos, rows[pk_position(rows, k)], row, infos.len() as int)
        },
    }
}

/// `e` is the error that reports update refusal `r`.
pub open spec fn update_refusal_error(e: IntersticeError, r: UpdateRefusal, infos: Seq<IndexInfo>, table: Seq<char>, row: RowView) -> bool {
    match r {
        UpdateRefusal::PkNotKey => internal_error(e, "value cannot be used as an index key"@),
        UpdateRefusal::RowNotFound => e matches IntersticeError::RowNotFound { primary_key_value: k } && Some(k@)
            == row_pk(row),
        UpdateRefusal::FieldMissing(_) => internal_error(e, "Index field out of bounds"@),
        UpdateRefusal::FieldNotKey(_) => internal_error(e, "value cannot be used as an index key"@),
        UpdateRefusal::AutoIncChanged(t) => auto_inc_update_refused(e, table, infos[t].field_name),
        UpdateRefusal::FieldTaken(t) => unique_violation(e, table, infos[t].field_name),
    }
}

pub proof fn lemma_update_refusal_stops(rows: Seq<RowView>, infos: Seq<IndexInfo>, old_row: RowView, row: RowView, k: int, n: int)
    requires
        0 <= k <= n,
        first_update_refusal(rows, infos, old_row, row, k) is Some,
    ensures
        first_update_refusal(rows, infos, old_row, row, n) == first_update_refusal(rows, infos, old_row, row, k),
    decreases n - k,
{
    if n > k {
        lemma_update_refusal_stops(rows, infos, old_row, row, k, n - 1);
    }
}

pub proof fn lemma_no_update_refusal_each(rows: Seq<RowView>, infos: Seq<IndexInfo>, old_row: RowView, row: RowView, n: int)
    requires
        first_update_refusal(rows, infos, old_row, row, n) is None,
    ensures
        forall|u: int| 0 <= u < n ==> index_update_refusal(rows, #[trigger] infos[u], u, old_row, row) is None,
    decreases n,
{
    if n > 0 {
        lemma_no_update_refusal_each(rows, infos, old_row, row, n - 1);
    }
}

/// The first of the first `n` indexes on field `name`.
pub open spec fn first_index_named(infos: Seq<IndexInfo>, name: Seq<char>, n: int) -> Option<int>
    decreases n,
{
    if n <= 0 {
        None
    } else {
        match first_index_named(infos, name, n - 1) {
            Some(t) => Some(t),
            None => if infos[n - 1].field_name == name {
                Some(n - 1)
            } else {
                None
            },
        }
    }
}

pub proof fn lemma_first_index_named(infos: Seq<IndexInfo>, name: Seq<char>, n: int)
    ensures
        first_index_named(infos, name, n) matches Some(t) ==> 0 <= t < n && infos[t].field_name == name,
        first_index_named(infos, name, n) is None ==> forall|u: int| 0 <= u < n ==> #[trigger] infos[u].field_name != name,
    decreases n,
{
    if n > 0 {
        lemma_first_index_named(infos, name, n - 1);
    }
}

pub proof fn lemma_first_index_stays(infos: Seq<IndexInfo>, name: Seq<char>, k: int, n: int)
    requires
        0 <= k <= n,
        first_index_named(infos, name, k) is Some,
    ensures
        first_index_named(infos, name, n) == first_index_named(infos, name, k),
    decreases n - k,
{
    if n > k {
        lemma_first_index_stays(infos, name, k, n - 1);
    }
}

/// The index an index query on field `name` consults, if any.
pub open spec fn index_named(infos: Seq<IndexInfo>, name: Seq<char>) -> Option<int> {
    first_index_named(infos, name, infos.len() as int)
}

/// What a table holds as far as inserting rows goes: its rows, its
/// indexes and its primary-key counter.
pub struct InsertState {
    pub rows: Seq<RowView>,
    pub infos: Seq<IndexInfo>,
    pub pk_counter: Option<AutoIncView>,
}

/// The state after inserting `row`, or `None` when the insert fails.
pub open spec fn insert_step(st: InsertState, pk_auto_inc: bool, row: RowView, table: Seq<char>) -> Option<InsertState> {
    let (pc, infos2, err) = row_sync(pk_auto_inc, st.pk_counter, st.infos, row, table);
    if err is Some {
        None
    } else if insert_refusal(st.rows, st.infos, row, false) is Some {
        None
    } else {
        Some(InsertState { rows: st.rows.push(row), infos: infos2, pk_counter: pc })
    }
}

/// The state after inserting the first `n` of `rows` in order, or `None`
/// when one of those inserts fails.
pub open spec fn insert_all(st: InsertState, pk_auto_inc: bool, rows: Seq<RowView>, table: Seq<char>, n: int) -> Option<InsertState>
    decreases n,
{
    if n <= 0 {
        Some(st)
    } else {
        match insert_all(st, pk_auto_inc, rows, table, n - 1) {
            None => None,
            Some(s2) => insert_step(s2, pk_auto_inc, rows[n - 1], table),
        }
    }
}

pub proof fn lemma_insert_all_fails(st: InsertState, pk_auto_inc: bool, rows: Seq<RowView>, table: Seq<char>, k: int, n: int)
    requires
        0 <= k <= n,
        insert_all(st, pk_auto_inc, rows, table, k) is None,
    ensures
        insert_all(st, pk_auto_inc, rows, table, n) is None,
    decreases n - k,
{
    if n > k {
        lemma_insert_all_fails(st, pk_auto_inc, rows, table, k, n - 1);
    }
}

/// The counter a table starts with for its primary key.
pub open spec fn initial_pk_counter(schema: TableSchema) -> Option<AutoIncView> {
    if schema.primary_key_auto_inc {
        match auto_inc_kind_of(schema.primary_key.field_type) {
            Some(k) => Some(AutoIncView { kind: k, next: 0 }),
            None => None,
        }
    } else {
        None
    }
}

/// What a freshly built table for `schema` holds.
pub open spec fn initial_state(schema: TableSchema) -> InsertState {
    InsertState {
        rows: Seq::empty(),
        infos: schema_indexes(schema, schema.indexes@.len() as int),
        pk_counter: initial_pk_counter(schema),
    }
}

/// What drawing the next primary key does to `row`: the new counter and
/// the filled-in row, or the error message.
pub open spec fn pk_prepare(pk_auto_inc: bool, c: Option<AutoIncView>, row: RowView, table: Seq<char>) -> (Option<AutoIncView>, Result<RowView, Seq<char>>) {
    if !pk_auto_inc {
        (c, Ok(row))
    } else {
        match c {
            None => (c, Err(unsupported_pk_text(table))),
            Some(st) => {
                let (st2, v) = auto_inc_step(st);
                match v {
                    None => (Some(st2), Err(overflow_text(st.kind))),
                    Some(val) => (Some(st2), Ok(RowView { primary_key: val, entries: row.entries })),
                }
            },
        }
    }
}

/// Drawing the next numbers of the first `n` indexes into `row`, in order,
/// stopping at the first error: the new indexes and the filled-in row or
/// the error message.
pub open spec fn prepare_indexes(infos: Seq<IndexInfo>, row: RowView, table: Seq<char>, n: int) -> (Seq<IndexInfo>, Result<RowView, Seq<char>>)
    decreases n,
{
    if n <= 0 {
        (infos, Ok(row))
    } else {
        let (prev, r) = prepare_indexes(infos, row, table, n - 1);
        match r {
            Err(m) => (prev, Err(m)),
            Ok(rv) => {
                let info = prev[n - 1];
                let (c, r2) = index_prepare(info.auto_inc, info.counter, info.field_name, info.field_index, rv, table);
                (prev.update(n - 1, IndexInfo { counter: c, ..info }), r2)
            },
        }
    }
}

/// Filling in every counter-drawn value of `row`: the new primary-key
/// counter, the new indexes, and the filled-in row or the error message.
pub open spec fn prepare_outcome(pk_auto_inc: bool, pc0: Option<AutoIncView>, infos0: Seq<IndexInfo>, row: RowView, table: Seq<char>) -> (
    Option<AutoIncView>,
    Seq<IndexInfo>,
    Result<RowView, Seq<char>>,
) {
    let (pc, r1) = pk_prepare(pk_auto_inc, pc0, row, table);
    match r1 {
        Err(m) => (pc, infos0, Err(m)),
        Ok(row1) => {
            let (infos2, r2) = prepare_indexes(infos0, row1, table, infos0.len() as int);
            (pc, infos2, r2)
        },
    }
}

pub proof fn lemma_prepare_stops(infos: Seq<IndexInfo>, row: RowView, table: Seq<char>, k: int, n: int)
    requires
        0 <= k <= n,
        prepare_indexes(infos, row, table, k).1 is Err,
    ensures
        prepare_indexes(infos, row, table, n) == prepare_indexes(infos, row, table, k),
    decreases n - k,
{
    if n > k {
        lemma_prepare_stops(infos, row, table, k, n - 1);
    }
}

/// A table of rows.
pub struct Table {
    pub schema: TableSchema,
    rows: Vec<Row>,
    indexes: Vec<TableIndex>,
    primary_key_auto_inc: bool,
    primary_key_auto_inc_state: Option<AutoIncState>,
}

impl Table {
    /// The rows, in storage order.
    pub closed spec fn rows(&self) -> Seq<RowView> {
        self.rows@.map_values(|r: Row| r@)
    }

    pub closed spec fn table_name(&self) -> Seq<char> {
        self.schema.name@
    }

    pub closed spec fn pk_name(&self) -> Seq<char> {
        self.schema.primary_key.name@
    }

    pub closed spec fn pk_auto_inc(&self) -> bool {
        self.primary_key_auto_inc
    }

    pub closed spec fn pk_counter(&self) -> Option<AutoIncView> {
        counter_view(self.primary_key_auto_inc_state)
    }

    /// The table's indexes, in order.
    pub closed spec fn index_infos(&self) -> Seq<IndexInfo> {
        self.indexes@.map_values(|t: TableIndex| index_info_of(t))
    }

    /// Every row has a key as primary key and no two share one; every row
    /// has a key in each indexed field; each index records exactly the
    /// rows whose field holds each key.
    pub closed spec fn wf(&self) -> bool {
        &&& self.primary_key_auto_inc == self.schema.primary_key_auto_inc
        &&& forall|i: int| 0 <= i < self.rows@.len() ==> (#[trigger] row_pk(self.rows@[i]@)) is Some
        &&& pks_distinct(self.rows@)
        &&& forall|t: int| 0 <= t < self.indexes@.len() ==> index_ok(#[trigger] self.indexes@[t], self.rows@)
    }
}

proof fn lemma_field_position_bound(fields: Seq<FieldDef>, name: Seq<char>, n: int)
    ensures
        field_position(fields, name, n) matches Some(p) ==> 0 <= p < n,
    decreases n,
{
    if n > 0 {
        lemma_field_position_bound(fields, name, n - 1);
    }
}

/// The last field among `fields` named `name`.
fn find_field_position(fields: &Vec<FieldDef>, name: &String) -> (r: Option<usize>)
    ensures
        match field_position(fields@, name@, fields@.len() as int) {
            Some(p) => r matches Some(q) && q as int == p,
            None => r is None,
        },
        r matches Some(p) ==> p < fields@.len(),
{
    let mut i: usize = fields.len();
    while i > 0
        invariant
            i <= fields@.len(),
            field_position(fields@, name@, fields@.len() as int) == field_position(fields@, name@, i as int),
        decreases i,
    {
        if fields[i - 1].name == *name {
            return Some(i - 1);
        }
        i = i - 1;
    }
    None
}

pub open spec fn index_info_of(t: TableIndex) -> IndexInfo {
    IndexInfo {
        field_name: t.field_name@,
        field_index: t.field_index as int,
        unique: t.unique,
        auto_inc: t.auto_inc,
        index_type: t.index_type,
        counter: counter_view(t.auto_inc_state),
    }
}

impl Table {
    /// The schema the table was built from.
    pub closed spec fn table_schema(&self) -> TableSchema {
        self.schema
    }

    /// An empty table for `schema`, with one index per declared index whose
    /// field exists and fresh counters.
    pub fn new(schema: TableSchema) -> (t: Self)
        ensures
            t.wf(),
            t.rows() == Seq::<RowView>::empty(),
            t.table_schema() == schema,
            t.table_name() == schema.name@,
            t.pk_name() == schema.primary_key.name@,
            t.index_infos() == schema_indexes(schema, schema.indexes@.len() as int),
            t.pk_auto_inc() == schema.primary_key_auto_inc,
            t.pk_counter() == if schema.primary_key_auto_inc {
                match auto_inc_kind_of(schema.primary_key.field_type) {
                    Some(k) => Some(AutoIncView { kind: k, next: 0 }),
                    None => None,
                }
            } else {
                None
            },
    {
        let mut indexes: Vec<TableIndex> = Vec::new();
        let mut j: usize = 0;
        while j < schema.indexes.len()
            invariant
                j <= schema.indexes@.len(),
                forall|t: int| 0 <= t < indexes@.len() ==> (#[trigger] indexes@[t]).wf(),
                forall|t: int, k: KeyView|
                    0 <= t < indexes@.len() ==> #[trigger] indexes@[t].pos_set(k) == Set::<usize>::empty(),
                indexes@.map_values(|t: TableIndex| index_info_of(t)) == schema_indexes(schema, j as int),
            decreases schema.indexes.len() - j,
        {
            let d = &schema.indexes[j];
            let ghost before = indexes@;
            proof {
                lemma_field_position_bound(schema.fields@, d.field_name@, schema.fields@.len() as int);
            }
            match find_field_position(&schema.fields, &d.field_name) {
                Some(pos) => {
                    let t = TableIndex::new(d, pos, &schema.fields[pos].field_type);
                    indexes.push(t);
                    proof {
                        assert(indexes@ == before.push(t));
                        assert(index_info_for(schema, schema.indexes@[j as int]) == Some(index_info_of(t)));
                        assert(indexes@.map_values(|t: TableIndex| index_info_of(t)) =~= before.map_values(
                            |t: TableIndex| index_info_of(t),
                        ).push(index_info_of(t)));
                    }
                },
                None => {},
            }
            proof {
                assert(indexes@.map_values(|t: TableIndex| index_info_of(t)) =~= schema_indexes(schema, j + 1));
            }
            j = j + 1;
        }
        let primary_key_auto_inc = schema.primary_key_auto_inc;
        let primary_key_auto_inc_state = if primary_key_auto_inc {
            AutoIncState::from_type(&schema.primary_key.field_type)
        } else {
            None
        };
        let t = Table { schema, rows: Vec::new(), indexes, primary_key_auto_inc, primary_key_auto_inc_state };
        proof {
            assert(t.rows() =~= Seq::<RowView>::empty());
            assert(t.index_infos() =~= indexes@.map_values(|t: TableIndex| index_info_of(t)));
        }
        t
    }
}

/// Some row has primary key `k`.
pub open spec fn has_row_with_pk(rows: Seq<RowView>, k: KeyView) -> bool {
    exists|i: int| 0 <= i < rows.len() && row_pk(#[trigger] rows[i]) == Some(k)
}

impl Table {
    /// Where the row with primary key `k` is stored.
    fn find_row(&self, k: &IndexKey) -> (r: Option<usize>)
        requires
            self.wf(),
        ensures
            match r {
                Some(i) => i < self.rows@.len() && row_pk(self.rows@[i as int]@) == Some(k@),
                None => !has_row_with_pk(self.rows(), k@),
            },
    {
        let mut i: usize = 0;
        while i < self.rows.len()
            invariant
                self.wf(),
                i <= self.rows@.len(),
                forall|j: int| 0 <= j < i ==> row_pk(#[trigger] self.rows@[j]@) != Some(k@),
            decreases self.rows.len() - i,
        {
            match self.rows[i].primary_key.to_index_key() {
                Some(rk) => {
                    if rk.equals(k) {
                        return Some(i);
                    }
                },
                None => {},
            }
            i = i + 1;
        }
        proof {
            assert forall|j: int| 0 <= j < self.rows().len() implies row_pk(#[trigger] self.rows()[j]) != Some(k@) by {
                assert(self.rows()[j] == self.rows@[j]@);
            }
        }
        None
    }

    /// The row with primary key `primary_key_value`, if there is one.
    pub fn get_by_primary_key(&self, primary_key_value: &IndexKey) -> (r: Option<&Row>)
        requires
            self.wf(),
        ensures
            match r {
                Some(row) => self.rows().contains(row@) && row_pk(row@) == Some(primary_key_value@),
                None => !has_row_with_pk(self.rows(), primary_key_value@),
            },
    {
        match self.find_row(primary_key_value) {
            Some(i) => {
                proof {
                    assert(self.rows()[i as int] == self.rows@[i as int]@);
                }
                Some(&self.rows[i])
            },
            None => None,
        }
    }

    /// Succeeds when a row with primary key `primary_key_value` exists.
    pub fn validate_delete(&self, primary_key_value: &IndexKey) -> (res: Result<(), IntersticeError>)
        requires
            self.wf(),
        ensures
            res is Ok <==> has_row_with_pk(self.rows(), primary_key_value@),
            res matches Err(e) ==> e matches IntersticeError::RowNotFound { primary_key_value: k }
                && k@ == primary_key_value@,
    {
        match self.find_row(primary_key_value) {
            Some(i) => {
                proof {
                    assert(self.rows()[i as int] == self.rows@[i as int]@);
                }
                Ok(())
            },
            None => Err(IntersticeError::RowNotFound { primary_key_value: primary_key_value.duplicate() }),
        }
    }

    /// All rows, in storage order.
    pub fn scan(&self) -> (r: &[Row])
        ensures
            r@.map_values(|x: Row| x@) == self.rows(),
    {
        self.rows.as_slice()
    }

    /// A copy of all rows, in storage order.
    pub fn snapshot_rows(&self) -> (r: Vec<Row>)
        ensures
            r@.map_values(|x: Row| x@) == self.rows(),
    {
        let mut out: Vec<Row> = Vec::new();
        let mut i: usize = 0;
        while i < self.rows.len()
            invariant
                i <= self.rows@.len(),
                out@.len() == i,
                forall|j: int| 0 <= j < i ==> (#[trigger] out@[j])@ == self.rows@[j]@,
            decreases self.rows.len() - i,
        {
            out.push(self.rows[i].duplicate());
            i = i + 1;
        }
        proof {
            assert(out@.map_values(|x: Row| x@) =~= self.rows());
        }
        out
    }

    /// Remove the row with primary key `primary_key_value` and return it.
    /// The last row takes the removed row's place.
    pub fn delete(&mut self, primary_key_value: &IndexKey) -> (res: Result<Row, IntersticeError>)
        requires
            old(self).wf(),
        ensures
            final(self).wf(),
            final(self).table_schema() == old(self).table_schema(),
            final(self).index_infos() == old(self).index_infos(),
            final(self).pk_auto_inc() == old(self).pk_auto_inc(),
            final(self).pk_counter() == old(self).pk_counter(),
            res is Ok <==> has_row_with_pk(old(self).rows(), primary_key_value@),
            res matches Ok(r) ==> exists|p: int|
                0 <= p < old(self).rows().len() && old(self).rows()[p] == r@ && row_pk(r@) == Some(
                    primary_key_value@,
                ) && final(self).rows() == swap_removed(old(self).rows(), p),
            res matches Err(e) ==> final(self).rows() == old(self).rows() && (e matches IntersticeError::RowNotFound {
                primary_key_value: k,
            } && k@ == primary_key_value@),
    {
        let p = match self.find_row(primary_key_value) {
            Some(p) => p,
            None => {
                return Err(IntersticeError::RowNotFound { primary_key_value: primary_key_value.duplicate() });
            },
        };
        let ghost old_rows = self.rows@;
        let ghost old_indexes = self.indexes@;
        let ghost n = old_rows.len();
        let deleted_row = self.rows.swap_remove(p);
        proof {
            assert(self.rows@ == old_rows.update(p as int, old_rows.last()).drop_last());
        }
        let mut t: usize = 0;
        while t < self.indexes.len()
            invariant
                t <= self.indexes@.len(),
                self.indexes@.len() == old_indexes.len(),
                p < n,
                n == old_rows.len(),
                self.rows@ == old_rows.update(p as int, old_rows.last()).drop_last(),
                deleted_row == old_rows[p as int],
                self.schema == old(self).schema,
                self.primary_key_auto_inc == old(self).primary_key_auto_inc,
                self.primary_key_auto_inc_state == old(self).primary_key_auto_inc_state,
                forall|u: int| 0 <= u < self.indexes@.len() ==> same_index_shape(#[trigger] self.indexes@[u], old_indexes[u]),
                forall|u: int| 0 <= u < t ==> index_ok(#[trigger] self.indexes@[u], self.rows@),
                forall|u: int| t <= u < self.indexes@.len() ==> #[trigger] self.indexes@[u] == old_indexes[u],
                forall|u: int| 0 <= u < old_indexes.len() ==> index_ok(#[trigger] old_indexes[u], old_rows),
            decreases self.indexes.len() - t,
        {
            let ghost i0 = self.indexes@[t as int];
            let ghost fi = i0.field_index as int;
            proof {
                assert(index_ok(old_indexes[t as int], old_rows));
                assert(row_field_key(old_rows[p as int]@, fi) is Some);
            }
            let kd = self.indexes[t].key_of(&deleted_row);
            self.indexes[t].remove(p, kd);
            let ghost i1 = self.indexes@[t as int];
            if p < self.rows.len() {
                proof {
                    assert(row_field_key(old_rows[n - 1]@, fi) is Some);
                }
                let km = self.indexes[t].key_of(&self.rows[p]);
                proof {
                    assert(row_field_key(old_rows[n - 1]@, fi) == Some(km@));
                    if km@ != kd@ {
                        assert(!i0.pos_set(km@).contains(p));
                    }
                    assert(i0.pos_set(km@).contains((n - 1) as usize));
                }
                let last = self.rows.len();
                self.indexes[t].replace_position(last, p, km);
            }
            proof {
                let i2 = self.indexes@[t as int];
                let rows2 = self.rows@;
                assert forall|i: int| 0 <= i < rows2.len() implies (row_field_key(#[trigger] rows2[i]@, fi)) is Some by {
                    if i == p {
                        assert(rows2[i] == old_rows[n - 1]);
                    } else {
                        assert(rows2[i] == old_rows[i]);
                    }
                }
                assert forall|k: KeyView, q: usize| #[trigger] i2.pos_set(k).contains(q) <==> (q < rows2.len()
                    && row_field_key(rows2[q as int]@, fi) == Some(k)) by {
                    if q == p {
                        assert(rows2.len() > p ==> rows2[q as int] == old_rows[n - 1]);
                    } else if (q as int) < rows2.len() {
                        assert(rows2[q as int] == old_rows[q as int]);
                    }
                }
                assert(index_ok(i2, rows2));
            }
            t = t + 1;
        }
        proof {
            let rows2 = self.rows@;
            assert forall|i: int| 0 <= i < rows2.len() implies (#[trigger] row_pk(rows2[i]@)) is Some by {
                if i == p {
                    assert(rows2[i] == old_rows[n - 1]);
                } else {
                    assert(rows2[i] == old_rows[i]);
                }
            }
            assert forall|i: int, j: int| 0 <= i < rows2.len() && 0 <= j < rows2.len() && i != j implies row_pk(
                #[trigger] rows2[i]@,
            ) != row_pk(#[trigger] rows2[j]@) by {
                let oi = if i == p { n - 1 } else { i };
                let oj = if j == p { n - 1 } else { j };
                assert(rows2[i] == old_rows[oi]);
                assert(rows2[j] == old_rows[oj]);
            }
            assert(self.index_infos() =~= old(self).index_infos()) by {
                assert forall|u: int| 0 <= u < self.indexes@.len() implies #[trigger] self.index_infos()[u] == old(self).index_infos()[u] by {
                    assert(same_index_shape(self.indexes@[u], old_indexes[u]));
                }
            }
            assert(self.rows() =~= swap_removed(old(self).rows(), p as int));
            assert(old(self).rows()[p as int] == deleted_row@);
        }
        Ok(deleted_row)
    }

    /// Advance the counters past the values `row` holds: the primary key
    /// first, then each index in order, stopping at the first error.
    fn sync_auto_inc_from_row(&mut self, row: &Row) -> (res: Result<(), IntersticeError>)
        requires
            old(self).wf(),
        ensures
            final(self).wf(),
            final(self).rows == old(self).rows,
            final(self).schema == old(self).schema,
            final(self).primary_key_auto_inc == old(self).primary_key_auto_inc,
            final(self).indexes@.len() == old(self).indexes@.len(),
            forall|t: int| 0 <= t < final(self).indexes@.len() ==> (#[trigger] final(self).indexes@[t]).entries == old(self).indexes@[t].entries,
            forall|t: int|
                #![trigger final(self).indexes@[t]]
                0 <= t < final(self).indexes@.len() ==> final(self).indexes@[t].field_index == old(self).indexes@[t].field_index
                    && final(self).indexes@[t].field_name == old(self).indexes@[t].field_name
                    && final(self).indexes@[t].unique == old(self).indexes@[t].unique
                    && final(self).indexes@[t].auto_inc == old(self).indexes@[t].auto_inc
                    && final(self).indexes@[t].index_type == old(self).indexes@[t].index_type,
            ({
                let (pc, infos, err) = row_sync(
                    old(self).pk_auto_inc(),
                    old(self).pk_counter(),
                    old(self).index_infos(),
                    row@,
                    old(self).table_name(),
                );
                &&& final(self).pk_counter() == pc
                &&& final(self).index_infos() == infos
                &&& match err {
                    Some(m) => res matches Err(e) && internal_error(e, m),
                    None => res is Ok,
                }
            }),
    {
        if self.primary_key_auto_inc {
            if self.primary_key_auto_inc_state.is_none() {
                let mut m = "auto_inc is not supported for primary key in table '".to_owned();
                m.append(self.schema.name.as_str());
                m.append("'");
                return Err(IntersticeError::Internal(m));
            }
            let mut st = self.primary_key_auto_inc_state.take().unwrap();
            let r = st.sync_from_value(&row.primary_key);
            self.primary_key_auto_inc_state = Some(st);
            match r {
                Ok(()) => {},
                Err(e) => {
                    return Err(e);
                },
            }
        }
        let ghost infos0 = self.index_infos();
        let ghost table = self.schema.name@;
        let mut t: usize = 0;
        while t < self.indexes.len()
            invariant
                t <= self.indexes@.len(),
                self.indexes@.len() == old(self).indexes@.len(),
                self.rows == old(self).rows,
                self.schema == old(self).schema,
                table == self.schema.name@,
                self.primary_key_auto_inc == old(self).primary_key_auto_inc,
                self.pk_counter() == row_sync(
                    old(self).pk_auto_inc(),
                    old(self).pk_counter(),
                    old(self).index_infos(),
                    row@,
                    old(self).table_name(),
                ).0,
                pk_sync_outcome(old(self).pk_auto_inc(), old(self).pk_counter(), row@, table) is Ok,
                infos0 == old(self).index_infos(),
                forall|u: int| 0 <= u < self.indexes@.len() ==> (#[trigger] self.indexes@[u]).entries == old(self).indexes@[u].entries,
                forall|u: int|
                    #![trigger self.indexes@[u]]
                    0 <= u < self.indexes@.len() ==> self.indexes@[u].field_index == old(self).indexes@[u].field_index
                        && self.indexes@[u].field_name == old(self).indexes@[u].field_name
                        && self.indexes@[u].unique == old(self).indexes@[u].unique
                        && self.indexes@[u].auto_inc == old(self).indexes@[u].auto_inc
                        && self.indexes@[u].index_type == old(self).indexes@[u].index_type,
                self.index_infos() == sync_indexes(infos0, row@, table, t as int).0,
                sync_indexes(infos0, row@, table, t as int).1 is None,
                old(self).wf(),
            decreases self.indexes.len() - t,
        {
            let ghost before = self.index_infos();
            let r = self.indexes[t].sync_auto_inc_from_row(row, self.schema.name.as_str());
            match r {
                Ok(()) => {},
                Err(e) => {
                    proof {
                        assert(self.index_infos() =~= before);
                        lemma_sync_stops(infos0, row@, table, t + 1, infos0.len() as int);
                        self.lemma_wf_same_entries(old(self));
                    }
                    return Err(e);
                },
            }
            proof {
                assert(self.index_infos() =~= before.update(t as int, IndexInfo { counter: self.index_infos()[t as int].counter, ..before[t as int] }));
            }
            t = t + 1;
        }
        proof {
            self.lemma_wf_same_entries(old(self));
        }
        Ok(())
    }

    /// A table whose rows and index entries are those of a well-formed one
    /// is well formed.
    proof fn lemma_wf_same_entries(&self, other: &Table)
        requires
            other.wf(),
            self.rows == other.rows,
            self.schema == other.schema,
            self.primary_key_auto_inc == other.primary_key_auto_inc,
            self.indexes@.len() == other.indexes@.len(),
            forall|u: int| 0 <= u < self.indexes@.len() ==> (#[trigger] self.indexes@[u]).entries == other.indexes@[u].entries,
            forall|u: int| 0 <= u < self.indexes@.len() ==> (#[trigger] self.indexes@[u]).field_index == other.indexes@[u].field_index,
        ensures
            self.wf(),
    {
        assert forall|t: int| 0 <= t < self.indexes@.len() implies index_ok(#[trigger] self.indexes@[t], self.rows@) by {
            TableIndex::lemma_same_entries(&self.indexes@[t], &other.indexes@[t]);
            assert(index_ok(other.indexes@[t], other.rows@));
        }
    }

    /// Some row holds `k` in the field of index `t`.
    proof fn lemma_key_taken(&self, t: int, k: KeyView)
        requires
            self.wf(),
            0 <= t < self.indexes@.len(),
        ensures
            self.indexes@[t].pos_set(k) != Set::<usize>::empty() <==> (exists|i: int|
                0 <= i < self.rows().len() && row_field_key(#[trigger] self.rows()[i], self.indexes@[t].field_index as int)
                    == Some(k)),
    {
        let idx = self.indexes@[t];
        assert(index_ok(idx, self.rows@));
        if idx.pos_set(k) != Set::<usize>::empty() {
            assert(!(idx.pos_set(k) =~= Set::<usize>::empty()));
            let p = choose|p: usize| idx.pos_set(k).contains(p);
            assert(idx.pos_set(k).contains(p));
            assert(self.rows()[p as int] == self.rows@[p as int]@);
        }
        if exists|i: int|
            0 <= i < self.rows().len() && row_field_key(#[trigger] self.rows()[i], idx.field_index as int) == Some(k) {
            let i = choose|i: int|
                0 <= i < self.rows().len() && row_field_key(#[trigger] self.rows()[i], idx.field_index as int) == Some(k);
            assert(self.rows()[i] == self.rows@[i]@);
            assert(self.rows@.len() == self.rows.len());
            let q = i as usize;
            assert(q as int == i);
            assert(idx.pos_set(k).contains(q));
        }
    }

    /// The first reason `row` cannot be inserted, as an error.
    fn check_insert(&self, row: &Row, only_unique: bool) -> (res: Result<(), IntersticeError>)
        requires
            self.wf(),
        ensures
            match insert_refusal(self.rows(), self.index_infos(), row@, only_unique) {
                None => res is Ok,
                Some(r) => res matches Err(e) && refusal_error(
                    e,
                    r,
                    self.index_infos(),
                    self.table_name(),
                    self.pk_name(),
                ),
            },
    {
        let pk = match row.primary_key.to_index_key() {
            Some(k) => k,
            None => {
                return Err(internal("value cannot be used as an index key"));
            },
        };
        if let Some(i) = self.find_row(&pk) {
            proof {
                assert(self.rows()[i as int] == self.rows@[i as int]@);
            }
            return Err(
                IntersticeError::UniqueConstraintViolation {
                    table_name: self.schema.name.clone(),
                    field_name: self.schema.primary_key.name.clone(),
                },
            );
        }
        let ghost infos = self.index_infos();
        let mut t: usize = 0;
        while t < self.indexes.len()
            invariant
                self.wf(),
                t <= self.indexes@.len(),
                infos == self.index_infos(),
                first_index_refusal(self.rows(), infos, row@, only_unique, t as int) is None,
                insert_refusal(self.rows(), infos, row@, only_unique) == first_index_refusal(
                    self.rows(),
                    infos,
                    row@,
                    only_unique,
                    infos.len() as int,
                ),
            decreases self.indexes.len() - t,
        {
            let idx = &self.indexes[t];
            proof {
                assert(*idx == self.indexes@[t as int]);
                assert(infos[t as int] == index_info_of(*idx));
            }
            if only_unique && !idx.unique {
            } else {
                let key = match idx.key_from_row(row) {
                    Ok(k) => k,
                    Err(e) => {
                        proof {
                            lemma_refusal_stops(self.rows(), infos, row@, only_unique, t + 1, infos.len() as int);
                        }
                        return Err(e);
                    },
                };
                proof {
                    assert(index_ok(*idx, self.rows@));
                    self.lemma_key_taken(t as int, key@);
                }
                if idx.unique && idx.contains_key(&key) {
                    proof {
                        lemma_refusal_stops(self.rows(), infos, row@, only_unique, t + 1, infos.len() as int);
                    }
                    return Err(
                        IntersticeError::UniqueConstraintViolation {
                            table_name: self.schema.name.clone(),
                            field_name: idx.field_name.clone(),
                        },
                    );
                }
            }
            t = t + 1;
        }
        Ok(())
    }

    /// Succeeds when `row` could be inserted: its primary key is free and
    /// every unique index is free at its key.
    pub fn validate_insert(&self, row: &Row) -> (res: Result<(), IntersticeError>)
        requires
            self.wf(),
        ensures
            match insert_refusal(self.rows(), self.index_infos(), row@, true) {
                None => res is Ok,
                Some(r) => res matches Err(e) && refusal_error(
                    e,
                    r,
                    self.index_infos(),
                    self.table_name(),
                    self.pk_name(),
                ),
            },
    {
        self.check_insert(row, true)
    }

    /// Insert `row` at the end of the table. The counters are first advanced
    /// past the row's values; then the row is refused if its primary key or
    /// a unique indexed value is taken, or a key is missing.
    pub fn insert(&mut self, row: Row) -> (res: Result<(), IntersticeError>)
        requires
            old(self).wf(),
        ensures
            final(self).wf(),
            final(self).table_schema() == old(self).table_schema(),
            final(self).pk_auto_inc() == old(self).pk_auto_inc(),
            ({
                let (pc, infos, err) = row_sync(
                    old(self).pk_auto_inc(),
                    old(self).pk_counter(),
                    old(self).index_infos(),
                    row@,
                    old(self).table_name(),
                );
                &&& final(self).pk_counter() == pc
                &&& final(self).index_infos() == infos
                &&& match err {
                    Some(m) => (res matches Err(e) && internal_error(e, m)) && final(self).rows() == old(self).rows(),
                    None => match insert_refusal(old(self).rows(), old(self).index_infos(), row@, false) {
                        Some(r) => (res matches Err(e) && refusal_error(
                            e,
                            r,
                            old(self).index_infos(),
                            old(self).table_name(),
                            old(self).pk_name(),
                        )) && final(self).rows() == old(self).rows(),
                        None => res is Ok && final(self).rows() == old(self).rows().push(row@),
                    },
                }
            }),
    {
        self.sync_auto_inc_from_row(&row)?;
        let ghost synced = *self;
        proof {
            assert(self.rows() == old(self).rows());
            assert forall|u: int| 0 <= u < self.index_infos().len() implies #[trigger] self.index_infos()[u].field_index
                == old(self).index_infos()[u].field_index && self.index_infos()[u].unique == old(self).index_infos()[u].unique
                && self.index_infos()[u].field_name == old(self).index_infos()[u].field_name by {
                assert(self.index_infos()[u] == index_info_of(self.indexes@[u]));
                assert(old(self).index_infos()[u] == index_info_of(old(self).indexes@[u]));
            }
            lemma_refusal_same_shape(self.rows(), self.index_infos(), old(self).index_infos(), row@, false, self.index_infos().len() as int);
        }
        match self.check_insert(&row, false) {
            Ok(()) => {},
            Err(e) => {
                proof {
                    assert(self.index_infos().len() == old(self).index_infos().len());
                    lemma_refusal_bound(self.rows(), self.index_infos(), row@, false, self.index_infos().len() as int);
                    let r = insert_refusal(self.rows(), self.index_infos(), row@, false);
                    if let Some(InsertRefusal::FieldTaken(u)) = r {
                        assert(self.index_infos()[u].field_name == old(self).index_infos()[u].field_name);
                    }
                }
                return Err(e);
            },
        }
        let ghost infos = self.index_infos();
        let ghost old_rows = self.rows@;
        let n = self.rows.len();
        proof {
            lemma_no_refusal_each(self.rows(), infos, row@, false, infos.len() as int);
        }
        let ghost rowv = row@;
        self.rows.push(row);
        let mut t: usize = 0;
        while t < self.indexes.len()
            invariant
                t <= self.indexes@.len(),
                self.indexes@.len() == synced.indexes@.len(),
                n == old_rows.len(),
                self.rows@ == old_rows.push(self.rows@[n as int]),
                old_rows == synced.rows@,
                synced.wf(),
                self.schema == synced.schema,
                self.primary_key_auto_inc == synced.primary_key_auto_inc,
                self.primary_key_auto_inc_state == synced.primary_key_auto_inc_state,
                infos == synced.index_infos(),
                forall|u: int| 0 <= u < self.indexes@.len() ==> same_index_shape(#[trigger] self.indexes@[u], synced.indexes@[u]),
                forall|u: int| 0 <= u < t ==> index_ok(#[trigger] self.indexes@[u], self.rows@),
                forall|u: int| t <= u < self.indexes@.len() ==> #[trigger] self.indexes@[u] == synced.indexes@[u],
                forall|u: int| 0 <= u < infos.len() ==> index_refusal(synced.rows(), #[trigger] infos[u], u, self.rows@[n as int]@, false) is None,
                row_pk(self.rows@[n as int]@) is Some,
                self.rows@[n as int]@ == rowv,
                !has_row_with_pk(synced.rows(), row_pk(self.rows@[n as int]@)->0),
            decreases self.indexes.len() - t,
        {
            proof {
                assert(index_ok(synced.indexes@[t as int], old_rows));
                assert(infos[t as int] == index_info_of(synced.indexes@[t as int]));
                assert(index_refusal(synced.rows(), infos[t as int], t as int, self.rows@[n as int]@, false) is None);
            }
            let key = self.indexes[t].key_of(&self.rows[n]);
            proof {
                let idx = self.indexes@[t as int];
                assert(!idx.pos_set(key@).contains(n));
                synced.lemma_key_taken(t as int, key@);
                idx.lemma_has_key_iff_nonempty(key@);
            }
            let ghost i0 = self.indexes@[t as int];
            let r = self.indexes[t].insert(n, key, self.schema.name.as_str());
            proof {
                assert(r is Ok);
                let i1 = self.indexes@[t as int];
                let fi = i1.field_index as int;
                let rows2 = self.rows@;
                assert forall|i: int| 0 <= i < rows2.len() implies (row_field_key(#[trigger] rows2[i]@, fi)) is Some by {
                    if i < n {
                        assert(rows2[i] == old_rows[i]);
                    }
                }
                assert forall|k: KeyView, q: usize| #[trigger] i1.pos_set(k).contains(q) <==> (q < rows2.len()
                    && row_field_key(rows2[q as int]@, fi) == Some(k)) by {
                    if (q as int) < n {
                        assert(rows2[q as int] == old_rows[q as int]);
                    }
                }
            }
            t = t + 1;
        }
        proof {
            let rows2 = self.rows@;
            let newrow = rows2[n as int]@;
            assert forall|i: int| 0 <= i < rows2.len() implies (#[trigger] row_pk(rows2[i]@)) is Some by {
                if i < n {
                    assert(rows2[i] == old_rows[i]);
                }
            }
            assert forall|i: int, j: int| 0 <= i < rows2.len() && 0 <= j < rows2.len() && i != j implies row_pk(
                #[trigger] rows2[i]@,
            ) != row_pk(#[trigger] rows2[j]@) by {
                if i < n && j < n {
                    assert(rows2[i] == old_rows[i]);
                    assert(rows2[j] == old_rows[j]);
                } else if i < n {
                    assert(rows2[i] == old_rows[i]);
                    assert(synced.rows()[i] == old_rows[i]@);
                } else {
                    assert(rows2[j] == old_rows[j]);
                    assert(synced.rows()[j] == old_rows[j]@);
                }
            }
            assert(self.index_infos() =~= synced.index_infos()) by {
                assert forall|u: int| 0 <= u < self.indexes@.len() implies #[trigger] self.index_infos()[u] == synced.index_infos()[u] by {
                    assert(same_index_shape(self.indexes@[u], synced.indexes@[u]));
                }
            }
            assert(self.rows() =~= old(self).rows().push(newrow));
        }
        Ok(())
    }

    /// The first reason `row` cannot replace the stored row with its
    /// primary key, as an error; otherwise where that row is.
    fn check_update(&self, row: &Row) -> (res: Result<usize, IntersticeError>)
        requires
            self.wf(),
        ensures
            match update_refusal(self.rows(), self.index_infos(), row@) {
                None => res matches Ok(p) && p < self.rows().len() && row_pk(self.rows()[p as int]) == row_pk(row@)
                    && p == pk_position(self.rows(), row_pk(row@)->0),
                Some(r) => res matches Err(e) && update_refusal_error(
                    e,
                    r,
                    self.index_infos(),
                    self.table_name(),
                    row@,
                ),
            },
    {
        let pk = match row.primary_key.to_index_key() {
            Some(k) => k,
            None => {
                return Err(internal("value cannot be used as an index key"));
            },
        };
        let p = match self.find_row(&pk) {
            Some(p) => p,
            None => {
                return Err(IntersticeError::RowNotFound { primary_key_value: pk });
            },
        };
        let ghost rows = self.rows();
        let ghost infos = self.index_infos();
        proof {
            assert(rows[p as int] == self.rows@[p as int]@);
            let q = pk_position(rows, pk@);
            assert(has_row_with_pk(rows, pk@));
            assert(rows[q] == self.rows@[q]@);
            assert(q == p);
        }
        let mut t: usize = 0;
        while t < self.indexes.len()
            invariant
                self.wf(),
                t <= self.indexes@.len(),
                p < self.rows@.len(),
                rows == self.rows(),
                infos == self.index_infos(),
                rows[p as int] == self.rows@[p as int]@,
                update_refusal(rows, infos, row@) == first_update_refusal(rows, infos, rows[p as int], row@, infos.len() as int),
                first_update_refusal(rows, infos, rows[p as int], row@, t as int) is None,
            decreases self.indexes.len() - t,
        {
            let idx = &self.indexes[t];
            proof {
                assert(*idx == self.indexes@[t as int]);
                assert(infos[t as int] == index_info_of(*idx));
                assert(index_ok(*idx, self.rows@));
            }
            let new_key = match idx.key_from_row(row) {
                Ok(k) => k,
                Err(e) => {
                    proof {
                        lemma_update_refusal_stops(rows, infos, rows[p as int], row@, t + 1, infos.len() as int);
                    }
                    return Err(e);
                },
            };
            let old_key = idx.key_of(&self.rows[p]);
            if !old_key.equals(&new_key) {
                if idx.auto_inc {
                    proof {
                        lemma_update_refusal_stops(rows, infos, rows[p as int], row@, t + 1, infos.len() as int);
                    }
                    return Err(
                        IntersticeError::AutoIncUpdateNotAllowed {
                            table_name: self.schema.name.clone(),
                            field_name: idx.field_name.clone(),
                        },
                    );
                }
                proof {
                    self.lemma_key_taken(t as int, new_key@);
                }
                if idx.unique && idx.contains_key(&new_key) {
                    proof {
                        lemma_update_refusal_stops(rows, infos, rows[p as int], row@, t + 1, infos.len() as int);
                    }
                    return Err(
                        IntersticeError::UniqueConstraintViolation {
                            table_name: self.schema.name.clone(),
                            field_name: idx.field_name.clone(),
                        },
                    );
                }
            }
            t = t + 1;
        }
        Ok(p)
    }

    /// Succeeds when `row` could replace the stored row with its primary
    /// key.
    pub fn validate_update(&self, row: &Row) -> (res: Result<(), IntersticeError>)
        requires
            self.wf(),
        ensures
            match update_refusal(self.rows(), self.index_infos(), row@) {
                None => res is Ok,
                Some(r) => res matches Err(e) && update_refusal_error(
                    e,
                    r,
                    self.index_infos(),
                    self.table_name(),
                    row@,
                ),
            },
    {
        match self.check_update(row) {
            Ok(_) => Ok(()),
            Err(e) => Err(e),
        }
    }

    /// Replace the stored row that has `row`'s primary key by `row`, and
    /// return the row it replaced. Refused when no row has that key, when
    /// an auto-increment field would change, or when a unique field would
    /// take a value another row holds.
    pub fn update(&mut self, row: Row) -> (res: Result<Row, IntersticeError>)
        requires
            old(self).wf(),
        ensures
            final(self).wf(),
            final(self).table_schema() == old(self).table_schema(),
            final(self).index_infos() == old(self).index_infos(),
            final(self).pk_auto_inc() == old(self).pk_auto_inc(),
            final(self).pk_counter() == old(self).pk_counter(),
            match update_refusal(old(self).rows(), old(self).index_infos(), row@) {
                None => {
                    let p = pk_position(old(self).rows(), row_pk(row@)->0);
                    &&& res matches Ok(r) && r@ == old(self).rows()[p]
                    &&& final(self).rows() == old(self).rows().update(p, row@)
                },
                Some(r) => (res matches Err(e) && update_refusal_error(
                    e,
                    r,
                    old(self).index_infos(),
                    old(self).table_name(),
                    row@,
                )) && final(self).rows() == old(self).rows(),
            },
    {
        let p = self.check_update(&row)?;
        let ghost rows0 = self.rows();
        let ghost infos = self.index_infos();
        let ghost old_rows = self.rows@;
        let ghost old_indexes = self.indexes@;
        let ghost rowv = row@;
        proof {
            lemma_no_update_refusal_each(rows0, infos, rows0[p as int], rowv, infos.len() as int);
            assert(rows0[p as int] == old_rows[p as int]@);
        }
        let mut old_row = row;
        std::mem::swap(&mut self.rows[p], &mut old_row);
        proof {
            assert(self.rows@ == old_rows.update(p as int, self.rows@[p as int]));
            assert(old_row == old_rows[p as int]);
        }
        let mut t: usize = 0;
        while t < self.indexes.len()
            invariant
                t <= self.indexes@.len(),
                self.indexes@.len() == old_indexes.len(),
                p < old_rows.len(),
                self.rows@ == old_rows.update(p as int, self.rows@[p as int]),
                self.rows@[p as int]@ == rowv,
                old_row == old_rows[p as int],
                rows0 == old_rows.map_values(|r: Row| r@),
                self.schema == old(self).schema,
                self.primary_key_auto_inc == old(self).primary_key_auto_inc,
                self.primary_key_auto_inc_state == old(self).primary_key_auto_inc_state,
                infos == old_indexes.map_values(|t: TableIndex| index_info_of(t)),
                forall|u: int| 0 <= u < self.indexes@.len() ==> same_index_shape(#[trigger] self.indexes@[u], old_indexes[u]),
                forall|u: int| 0 <= u < t ==> index_ok(#[trigger] self.indexes@[u], self.rows@),
                forall|u: int| t <= u < self.indexes@.len() ==> #[trigger] self.indexes@[u] == old_indexes[u],
                forall|u: int| 0 <= u < old_indexes.len() ==> index_ok(#[trigger] old_indexes[u], old_rows),
                forall|u: int| 0 <= u < infos.len() ==> index_update_refusal(rows0, #[trigger] infos[u], u, rows0[p as int], rowv) is None,
            decreases self.indexes.len() - t,
        {
            let ghost i0 = self.indexes@[t as int];
            let ghost fi = i0.field_index as int;
            proof {
                assert(infos[t as int] == index_info_of(old_indexes[t as int]));
                assert(index_update_refusal(rows0, infos[t as int], t as int, rows0[p as int], rowv) is None);
                assert(rows0[p as int] == old_rows[p as int]@);
                assert(index_ok(old_indexes[t as int], old_rows));
                assert(row_field_key(old_rows[p as int]@, fi) is Some);
            }
            let old_key = self.indexes[t].key_of(&old_row);
            let new_key = self.indexes[t].key_of(&self.rows[p]);
            proof {
                assert(i0.pos_set(old_key@).contains(p));
                if old_key@ != new_key@ {
                    assert(!i0.pos_set(new_key@).contains(p));
                    if i0.unique {
                        assert(!(exists|i: int|
                            0 <= i < rows0.len() && row_field_key(#[trigger] rows0[i], fi) == Some(new_key@)));
                        if i0.has_key(new_key@) {
                            i0.lemma_has_key_iff_nonempty(new_key@);
                            assert(!(i0.pos_set(new_key@) =~= Set::<usize>::empty()));
                            let q = choose|q: usize| i0.pos_set(new_key@).contains(q);
                            assert(rows0[q as int] == old_rows[q as int]@);
                        }
                    }
                }
            }
            let r = self.indexes[t].update(p, old_key, new_key, self.schema.name.as_str());
            proof {
                assert(r is Ok);
                let i1 = self.indexes@[t as int];
                let rows2 = self.rows@;
                if old_key@ == new_key@ {
                    TableIndex::lemma_same_entries(&i1, &i0);
                }
                assert forall|i: int| 0 <= i < rows2.len() implies (row_field_key(#[trigger] rows2[i]@, fi)) is Some by {
                    if i != p {
                        assert(rows2[i] == old_rows[i]);
                    }
                }
                assert forall|k: KeyView, q: usize| #[trigger] i1.pos_set(k).contains(q) <==> (q < rows2.len()
                    && row_field_key(rows2[q as int]@, fi) == Some(k)) by {
                    if q != p && (q as int) < rows2.len() {
                        assert(rows2[q as int] == old_rows[q as int]);
                    }
                }
            }
            t = t + 1;
        }
        proof {
            let rows2 = self.rows@;
            let pk = row_pk(rowv)->0;
            assert forall|i: int| 0 <= i < rows2.len() implies (#[trigger] row_pk(rows2[i]@)) is Some by {
                if i != p {
                    assert(rows2[i] == old_rows[i]);
                }
            }
            assert forall|i: int, j: int| 0 <= i < rows2.len() && 0 <= j < rows2.len() && i != j implies row_pk(
                #[trigger] rows2[i]@,
            ) != row_pk(#[trigger] rows2[j]@) by {
                if i != p {
                    assert(rows2[i] == old_rows[i]);
                }
                if j != p {
                    assert(rows2[j] == old_rows[j]);
                }
            }
            assert(self.index_infos() =~= old(self).index_infos()) by {
                assert forall|u: int| 0 <= u < self.indexes@.len() implies #[trigger] self.index_infos()[u] == old(self).index_infos()[u] by {
                    assert(same_index_shape(self.indexes@[u], old_indexes[u]));
                }
            }
            assert(self.rows() =~= rows0.update(p as int, rowv));
        }
        Ok(old_row)
    }

    /// The rows whose value in the field of the first index on
    /// `field_name` satisfies `query`. Ordered indexes answer every query
    /// and list rows by non-decreasing key; hash indexes answer equality
    /// only.
    pub fn get_by_index(&self, field_name: &str, query: &IndexQuery) -> (res: Result<Vec<&Row>, IntersticeError>)
        requires
            self.wf(),
            index_named(self.index_infos(), field_name@) matches Some(t) && self.index_infos()[t].index_type
                == IndexType::BTree ==> query_bounds_ok(*query),
        ensures
            match index_named(self.index_infos(), field_name@) {
                None => res matches Err(e) && e matches IntersticeError::IndexNotFound { table_name: tn, field_name: f }
                    && tn@ == self.table_name() && f@ == field_name@,
                Some(t) => {
                    let info = self.index_infos()[t];
                    if !query_supported(info.index_type, *query) {
                        res matches Err(e) && query_refused(e, self.table_name(), field_name@)
                    } else {
                        res matches Ok(v) && {
                            &&& forall|j: int|
                                0 <= j < v@.len() ==> self.rows().contains((#[trigger] v@[j])@) && query_matches(
                                    *query,
                                    row_field_key(v@[j]@, info.field_index)->0,
                                )
                            &&& forall|i: int|
                                0 <= i < self.rows().len() && query_matches(
                                    *query,
                                    row_field_key(#[trigger] self.rows()[i], info.field_index)->0,
                                ) ==> exists|j: int| 0 <= j < v@.len() && v@[j]@ == self.rows()[i]
                            &&& forall|a: int, b: int| 0 <= a < b < v@.len() ==> (#[trigger] v@[a])@ != (#[trigger] v@[b])@
                            &&& forall|a: int, b: int|
                                0 <= a < b < v@.len() ==> key_le(
                                    row_field_key((#[trigger] v@[a])@, info.field_index)->0,
                                    row_field_key((#[trigger] v@[b])@, info.field_index)->0,
                                )
                        }
                    }
                },
            },
    {
        let ghost infos = self.index_infos();
        proof {
            lemma_first_index_named(infos, field_name@, infos.len() as int);
        }
        let mut t: usize = 0;
        while t < self.indexes.len() && compare_strings(self.indexes[t].field_name.as_str(), field_name) != KeyOrder::Equal
            invariant
                t <= self.indexes@.len(),
                infos == self.index_infos(),
                first_index_named(infos, field_name@, t as int) is None,
            decreases self.indexes.len() - t,
        {
            proof {
                assert(infos[t as int] == index_info_of(self.indexes@[t as int]));
                lemma_chars_lt_irreflexive(field_name@);
            }
            t = t + 1;
        }
        if t == self.indexes.len() {
            return Err(
                IntersticeError::IndexNotFound { table_name: self.schema.name.clone(), field_name: field_name.to_owned() },
            );
        }
        let idx = &self.indexes[t];
        proof {
            assert(*idx == self.indexes@[t as int]);
            assert(infos[t as int] == index_info_of(*idx));
            assert(infos[t as int].field_name == field_name@);
            assert(first_index_named(infos, field_name@, t + 1) == Some(t as int));
            lemma_first_index_stays(infos, field_name@, t + 1, infos.len() as int);
        }
        let positions = idx.scan(query, self.schema.name.as_str())?;
        let ghost fi = idx.field_index as int;
        let ghost key_of = |p: usize| row_field_key(self.rows@[p as int]@, fi)->0;
        proof {
            assert(index_ok(*idx, self.rows@));
            assert forall|i: int, p: usize|
                0 <= i < idx.entry_count() && #[trigger] idx.positions_at(i).contains(p) implies key_of(p) == idx.key_at(i) by {
                idx.lemma_entry_in_pos_set(i, p);
            }
            idx.lemma_scan_sorted(*query, idx.entry_count() as int, key_of);
            idx.lemma_scan_members(*query, idx.entry_count() as int);
            assert forall|a: int| 0 <= a < positions@.len() implies (#[trigger] positions@[a] as int) < self.rows@.len() by {
                assert(positions@.contains(positions@[a]));
            }
        }
        let mut out: Vec<&Row> = Vec::new();
        let mut j: usize = 0;
        while j < positions.len()
            invariant
                j <= positions@.len(),
                out@.len() == j,
                positions@ == idx.scan_result(*query),
                forall|a: int| 0 <= a < positions@.len() ==> (#[trigger] positions@[a] as int) < self.rows@.len(),
                forall|a: int| 0 <= a < j ==> (#[trigger] out@[a]) == &self.rows@[positions@[a] as int],
            decreases positions.len() - j,
        {
            out.push(&self.rows[positions[j]]);
            j = j + 1;
        }
        proof {
            let ps = positions@;
            assert forall|a: int| 0 <= a < out@.len() implies (#[trigger] out@[a])@ == self.rows()[ps[a] as int] by {}
            assert forall|j: int|
                0 <= j < out@.len() implies self.rows().contains((#[trigger] out@[j])@) && query_matches(
                    *query,
                    row_field_key(out@[j]@, fi)->0,
                ) by {
                assert(ps.contains(ps[j]));
                let i = choose|i: int|
                    0 <= i < idx.entry_count() && query_matches(*query, idx.key_at(i)) && #[trigger] idx.pos_set(
                        idx.key_at(i),
                    ).contains(ps[j]);
            }
            assert forall|i: int|
                0 <= i < self.rows().len() && query_matches(
                    *query,
                    row_field_key(#[trigger] self.rows()[i], fi)->0,
                ) implies exists|j: int| 0 <= j < out@.len() && out@[j]@ == self.rows()[i] by {
                assert(self.rows@.len() == self.rows.len());
                let p = i as usize;
                assert(self.rows()[i] == self.rows@[i]@);
                let k = row_field_key(self.rows@[i]@, fi)->0;
                assert(idx.pos_set(k).contains(p));
                idx.lemma_key_has_entry(k, p);
                let e = choose|e: int| 0 <= e < idx.entry_count() && idx.key_at(e) == k;
                assert(ps.contains(p));
                let jj = choose|jj: int| 0 <= jj < ps.len() && ps[jj] == p;
                assert(out@[jj]@ == self.rows()[i]);
            }
            assert forall|a: int, b: int| 0 <= a < b < out@.len() implies (#[trigger] out@[a])@ != (#[trigger] out@[b])@ by {
                assert(ps[a] != ps[b]);
                assert(self.rows@[ps[a] as int]@ != self.rows@[ps[b] as int]@) by {
                    assert(row_pk(self.rows@[ps[a] as int]@) != row_pk(self.rows@[ps[b] as int]@));
                }
            }
            assert forall|a: int, b: int|
                0 <= a < b < out@.len() implies key_le(
                    row_field_key((#[trigger] out@[a])@, fi)->0,
                    row_field_key((#[trigger] out@[b])@, fi)->0,
                ) by {
                assert(key_le(key_of(ps[a]), key_of(ps[b])));
            }
        }
        Ok(out)
    }

    /// What the table holds as far as inserting rows goes.
    pub open spec fn insert_state(&self) -> InsertState {
        InsertState { rows: self.rows(), infos: self.index_infos(), pk_counter: self.pk_counter() }
    }

    /// Insert `row`, as `insert_step` describes.
    pub proof fn lemma_insert_is_step(&self, other: &Table, row: RowView, ok: bool)
        requires
            ok ==> other.rows() == self.rows().push(row),
            ({
                let (pc, infos, err) = row_sync(self.pk_auto_inc(), self.pk_counter(), self.index_infos(), row, self.table_name());
                &&& other.pk_counter() == pc
                &&& other.index_infos() == infos
                &&& ok <==> (err is None && insert_refusal(self.rows(), self.index_infos(), row, false) is None)
            }),
        ensures
            ok ==> insert_step(self.insert_state(), self.pk_auto_inc(), row, self.table_name()) == Some(other.insert_state()),
            !ok ==> insert_step(self.insert_state(), self.pk_auto_inc(), row, self.table_name()) is None,
    {
    }

    /// Empty the table: rows go, and indexes and counters start afresh.
    pub fn clear(&mut self)
        requires
            old(self).wf(),
        ensures
            final(self).wf(),
            final(self).table_schema() == old(self).table_schema(),
            final(self).table_name() == old(self).table_name(),
            final(self).pk_auto_inc() == old(self).pk_auto_inc(),
            final(self).insert_state() == initial_state(final(self).table_schema()),
    {
        let mut schema = TableSchema {
            name: String::new(),
            primary_key: FieldDef { name: String::new(), field_type: IntersticeType::Void },
            primary_key_auto_inc: false,
            fields: Vec::new(),
            indexes: Vec::new(),
            persistence: PersistenceKind::Ephemeral,
        };
        std::mem::swap(&mut schema, &mut self.schema);
        *self = Table::new(schema);
    }

    /// Empty the table, then insert `rows` in order; stops at the first
    /// row refused.
    pub fn restore_from_rows(&mut self, rows: Vec<Row>) -> (res: Result<(), IntersticeError>)
        requires
            old(self).wf(),
        ensures
            final(self).wf(),
            final(self).table_schema() == old(self).table_schema(),
            final(self).table_name() == old(self).table_name(),
            final(self).pk_auto_inc() == old(self).pk_auto_inc(),
            match insert_all(
                initial_state(final(self).table_schema()),
                old(self).pk_auto_inc(),
                rows@.map_values(|r: Row| r@),
                old(self).table_name(),
                rows@.len() as int,
            ) {
                Some(st) => res is Ok && final(self).insert_state() == st,
                None => res is Err,
            },
    {
        self.clear();
        let ghost schema = self.table_schema();
        let ghost views = rows@.map_values(|r: Row| r@);
        let ghost table = self.table_name();
        let ghost pk_auto = self.pk_auto_inc();
        let mut i: usize = 0;
        while i < rows.len()
            invariant
                i <= rows@.len(),
                self.wf(),
                self.table_schema() == schema,
                self.table_name() == table,
                self.pk_auto_inc() == pk_auto,
                schema == old(self).table_schema(),
                table == old(self).table_name(),
                pk_auto == old(self).pk_auto_inc(),
                views == rows@.map_values(|r: Row| r@),
                insert_all(initial_state(schema), pk_auto, views, table, i as int) == Some(self.insert_state()),
            decreases rows.len() - i,
        {
            let r = rows[i].duplicate();
            let ghost before = *self;
            let res = self.insert(r);
            proof {
                before.lemma_insert_is_step(self, views[i as int], res is Ok);
            }
            match res {
                Ok(()) => {},
                Err(e) => {
                    proof {
                        lemma_insert_all_fails(initial_state(schema), pk_auto, views, table, i + 1, rows@.len() as int);
                    }
                    return Err(e);
                },
            }
            i = i + 1;
        }
        Ok(())
    }

    /// Fill in `row`'s auto-increment primary key and fields with the next
    /// numbers of their counters.
    pub fn prepare_insert(&mut self, new_row: Row) -> (res: Result<Row, IntersticeError>)
        requires
            old(self).wf(),
        ensures
            final(self).wf(),
            final(self).rows() == old(self).rows(),
            final(self).table_schema() == old(self).table_schema(),
            final(self).pk_auto_inc() == old(self).pk_auto_inc(),
            ({
                let (pc, infos, r) = prepare_outcome(
                    old(self).pk_auto_inc(),
                    old(self).pk_counter(),
                    old(self).index_infos(),
                    new_row@,
                    old(self).table_name(),
                );
                &&& final(self).pk_counter() == pc
                &&& final(self).index_infos() == infos
                &&& match r {
                    Ok(rv) => res matches Ok(x) && x@ == rv,
                    Err(m) => res matches Err(e) && internal_error(e, m),
                }
            }),
    {
        let ghost row0 = new_row@;
        let mut filled = new_row;
        if self.primary_key_auto_inc {
            if self.primary_key_auto_inc_state.is_none() {
                let mut m = "auto_inc is not supported for primary key in table '".to_owned();
                m.append(self.schema.name.as_str());
                m.append("'");
                return Err(IntersticeError::Internal(m));
            }
            let mut st = self.primary_key_auto_inc_state.take().unwrap();
            let r = st.next_value();
            self.primary_key_auto_inc_state = Some(st);
            match r {
                Ok(v) => {
                    filled.primary_key = v;
                },
                Err(e) => {
                    return Err(e);
                },
            }
        }
        let ghost infos0 = self.index_infos();
        let ghost table = self.schema.name@;
        let ghost row1 = filled@;
        let mut t: usize = 0;
        while t < self.indexes.len()
            invariant
                t <= self.indexes@.len(),
                self.indexes@.len() == old(self).indexes@.len(),
                self.rows == old(self).rows,
                self.schema == old(self).schema,
                table == self.schema.name@,
                self.primary_key_auto_inc == old(self).primary_key_auto_inc,
                row0 == new_row@,
                pk_prepare(old(self).pk_auto_inc(), old(self).pk_counter(), row0, table).1 == Ok::<RowView, Seq<char>>(row1),
                self.pk_counter() == pk_prepare(old(self).pk_auto_inc(), old(self).pk_counter(), row0, table).0,
                infos0 == old(self).index_infos(),
                forall|u: int| 0 <= u < self.indexes@.len() ==> (#[trigger] self.indexes@[u]).entries == old(self).indexes@[u].entries,
                forall|u: int|
                    #![trigger self.indexes@[u]]
                    0 <= u < self.indexes@.len() ==> self.indexes@[u].field_index == old(self).indexes@[u].field_index
                        && self.indexes@[u].field_name == old(self).indexes@[u].field_name
                        && self.indexes@[u].unique == old(self).indexes@[u].unique
                        && self.indexes@[u].auto_inc == old(self).indexes@[u].auto_inc
                        && self.indexes@[u].index_type == old(self).indexes@[u].index_type,
                self.index_infos() == prepare_indexes(infos0, row1, table, t as int).0,
                prepare_indexes(infos0, row1, table, t as int).1 == Ok::<RowView, Seq<char>>(filled@),
                old(self).wf(),
            decreases self.indexes.len() - t,
        {
            let ghost before = self.index_infos();
            let ghost row_before = filled@;
            proof {
                assert(before[t as int] == index_info_of(self.indexes@[t as int]));
            }
            let r = self.indexes[t].apply_auto_inc(&mut filled, self.schema.name.as_str());
            proof {
                assert(self.index_infos() =~= before.update(t as int, IndexInfo { counter: self.index_infos()[t as int].counter, ..before[t as int] }));
            }
            match r {
                Ok(()) => {},
                Err(e) => {
                    proof {
                        lemma_prepare_stops(infos0, row1, table, t + 1, infos0.len() as int);
                        self.lemma_wf_same_entries(old(self));
                        assert(infos0.len() == old(self).index_infos().len());
                        let (pc, r1) = pk_prepare(old(self).pk_auto_inc(), old(self).pk_counter(), row0, old(self).table_name());
                        assert(self.pk_counter() == pc);
                        assert(r1 == Ok::<RowView, Seq<char>>(row1));
                        let (infos2, r2x) = prepare_indexes(old(self).index_infos(), row1, old(self).table_name(), old(self).index_infos().len() as int);
                        assert(self.index_infos() == infos2);
                        assert(internal_error(e, r2x->Err_0));
                        let (pcz, infz, rz) = prepare_outcome(old(self).pk_auto_inc(), old(self).pk_counter(), old(self).index_infos(), row0, old(self).table_name());
                        assert(pcz == self.pk_counter());
                        assert(infz == self.index_infos());
                        assert(rz == r2x);
                    }
                    return Err(e);
                },
            }
            t = t + 1;
        }
        proof {
            self.lemma_wf_same_entries(old(self));
        }
        Ok(filled)
    }
}


impl Table {
    /// The table's name.
    pub fn name(&self) -> (r: &str)
        ensures
            r@ == self.table_name(),
    {
        self.schema.name.as_str()
    }

    /// The table's name is its schema's.
    pub proof fn lemma_name_of_schema(&self)
        ensures
            self.table_name() == self.table_schema().name@,
    {
    }

    /// Whether the primary key counts up is what the schema says.
    pub proof fn lemma_pk_auto_inc_of_schema(&self)
        requires
            self.wf(),
        ensures
            self.pk_auto_inc() == self.table_schema().primary_key_auto_inc,
    {
    }

    /// How the table's content survives restarts.
    pub fn persistence_kind(&self) -> (r: PersistenceKind)
        ensures
            r == self.table_schema().persistence,
    {
        self.schema.persistence
    }
}

/// Every row has a primary key and no two rows share one.
pub open spec fn keyed_rows(rows: Seq<RowView>) -> bool {
    &&& forall|i: int| 0 <= i < rows.len() ==> (#[trigger] row_pk(rows[i])) is Some
    &&& forall|i: int, j: int|
        0 <= i < rows.len() && 0 <= j < rows.len() && i != j ==> row_pk(#[trigger] rows[i]) != row_pk(
            #[trigger] rows[j],
        )
}

impl Table {
    /// The rows of a well-formed table each have a primary key, and the
    /// keys are all different.
    pub proof fn lemma_keyed_rows(&self)
        requires
            self.wf(),
        ensures
            keyed_rows(self.rows()),
    {
        assert forall|i: int| 0 <= i < self.rows().len() implies (#[trigger] row_pk(self.rows()[i])) is Some by {
            assert(self.rows()[i] == self.rows@[i]@);
        }
        assert forall|i: int, j: int|
            0 <= i < self.rows().len() && 0 <= j < self.rows().len() && i != j implies row_pk(
            #[trigger] self.rows()[i],
        ) != row_pk(#[trigger] self.rows()[j]) by {
            assert(self.rows()[i] == self.rows@[i]@);
            assert(self.rows()[j] == self.rows@[j]@);
        }
    }
}

/// A lookup by primary key right after a row was inserted gives back that
/// row: in the rows after the insert, the only row with the inserted
/// row's key is the inserted row.
pub proof fn lemma_insert_then_get(rows: Seq<RowView>, row: RowView, found: RowView)
    requires
        keyed_rows(rows.push(row)),
        rows.push(row).contains(found),
        row_pk(found) == row_pk(row),
    ensures
        found == row,
        row_pk(row) matches Some(k) && has_row_with_pk(rows.push(row), k),
{
    let s = rows.push(row);
    let i = choose|i: int| 0 <= i < s.len() && s[i] == found;
    assert(s[rows.len() as int] == row);
    assert(row_pk(s[i]) == row_pk(s[rows.len() as int]));
}

/// A lookup by primary key right after an update gives back the new row.
pub proof fn lemma_update_then_get(rows: Seq<RowView>, p: int, row: RowView, found: RowView)
    requires
        0 <= p < rows.len(),
        keyed_rows(rows.update(p, row)),
        rows.update(p, row).contains(found),
        row_pk(found) == row_pk(row),
    ensures
        found == row,
{
    let s = rows.update(p, row);
    let i = choose|i: int| 0 <= i < s.len() && s[i] == found;
    assert(s[p] == row);
    assert(row_pk(s[i]) == row_pk(s[p]));
}

/// After the row with primary key `k` is deleted no row has key `k`, the
/// rows are the old rows less that one row (as a multiset), and every
/// other row is still there.
pub proof fn lemma_delete_then_absent(rows: Seq<RowView>, p: int, k: KeyView)
    requires
        keyed_rows(rows),
        0 <= p < rows.len(),
        row_pk(rows[p]) == Some(k),
    ensures
        !has_row_with_pk(swap_removed(rows, p), k),
        swap_removed(rows, p).len() == rows.len() - 1,
        swap_removed(rows, p).to_multiset() == rows.to_multiset().remove(rows[p]),
        forall|i: int| 0 <= i < rows.len() && i != p ==> swap_removed(rows, p).contains(#[trigger] rows[i]),
{
    let s = swap_removed(rows, p);
    let n = rows.len();
    let u = rows.update(p, rows.last());
    assert(u.drop_last() =~= u.remove(n - 1));
    assert(u[n - 1] == rows.last()) by {
        if p != n - 1 {
            assert(u[n - 1] == rows[n - 1]);
        }
    }
    assert(s.to_multiset() =~= rows.to_multiset().remove(rows[p])) by {
        broadcast use vstd::seq_lib::group_to_multiset_ensures;
        broadcast use vstd::multiset::group_multiset_properties;
        vstd::seq_lib::to_multiset_update(rows, p, rows.last());
        assert(u.to_multiset() == rows.to_multiset().insert(rows.last()).remove(rows[p]));
        assert(u.remove(n - 1).to_multiset() =~= u.to_multiset().remove(rows.last()));
    }
    assert forall|i: int| 0 <= i < s.len() implies row_pk(#[trigger] s[i]) != Some(k) by {
        if i == p {
            assert(s[i] == rows[n - 1]);
            assert(n - 1 != p);
        } else {
            assert(s[i] == rows[i]);
        }
    }
    assert forall|i: int| 0 <= i < n && i != p implies s.contains(#[trigger] rows[i]) by {
        if i == n - 1 {
            assert(s[p] == rows[i]);
        } else {
            assert(s[i] == rows[i]);
        }
    }
}

/// Inserting a row and then deleting the row with its primary key gives
/// back the rows as they were.
pub proof fn lemma_insert_then_delete(rows: Seq<RowView>, row: RowView, p: int)
    requires
        keyed_rows(rows.push(row)),
        0 <= p < rows.len() + 1,
        row_pk(rows.push(row)[p]) == row_pk(row),
    ensures
        swap_removed(rows.push(row), p) == rows,
{
    let s = rows.push(row);
    assert(s[rows.len() as int] == row);
    assert(p == rows.len());
    assert(swap_removed(s, p) =~= rows);
}

} // verus!
