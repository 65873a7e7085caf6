//! When a logged table gets a fresh snapshot: every so many logged
//! operations, the table is written out whole so that its log can start
//! over.
use vstd::prelude::*;
use crate::runtime::error::{IntersticeError, internal_error};
use crate::runtime::schema::TableSchema;
use crate::runtime::table::{
    InsertState, Table, has_row_with_pk, initial_state, insert_step, keyed_rows, pk_position, row_pk, swap_removed,
    update_refusal,
};
use crate::runtime::value::{IndexKey, Row};

verus! {

/// The number of logged operations after which a snapshot is due.
pub const SNAPSHOT_INTERVAL: u64 = 256;

/// A snapshot to take of a table, as of the operation numbered `seq`.
#[derive(Clone, Debug)]
pub struct SnapshotPlan {
    pub module: String,
    pub table: String,
    pub seq: u64,
}

/// A snapshot is due once the operations logged since the last one reach
/// the interval.
pub open spec fn snapshot_due(seq: u64, last_snapshot_seq: u64) -> bool {
    (if seq >= last_snapshot_seq { seq - last_snapshot_seq } else { 0 }) >= SNAPSHOT_INTERVAL
}

/// A table change as the log of a logged table records it.
#[derive(Clone, Debug)]
pub enum LogOperation {
    Insert { primary_key: IndexKey, row: Option<Row> },
    Update { primary_key: IndexKey, row: Option<Row> },
    Delete { primary_key: IndexKey },
    Clear,
}

/// The sequence numbers of a logged table: the number the next logged
/// operation gets, and the one of the last snapshot.
#[derive(Clone, Debug)]
pub struct LogSequence {
    pub next_seq: u64,
    pub last_snapshot_seq: u64,
}

impl LogSequence {
    /// A table with nothing logged yet.
    pub fn new() -> (r: Self)
        ensures
            r.next_seq == 0,
            r.last_snapshot_seq == 0,
    {
        LogSequence { next_seq: 0, last_snapshot_seq: 0 }
    }

    /// The numbering of a table restored up to the operation numbered
    /// `last_seq`.
    pub fn restored(last_seq: u64) -> (r: Self)
        ensures
            r.last_snapshot_seq == last_seq,
            r.next_seq == (if last_seq == u64::MAX { u64::MAX } else { (last_seq + 1) as u64 }),
    {
        LogSequence { next_seq: last_seq.saturating_add(1), last_snapshot_seq: last_seq }
    }

    /// Number the next logged operation of `table` of `module`, and plan a
    /// snapshot when one is due.
    pub fn record_operation(&mut self, module: &str, table: &str) -> (r: Option<SnapshotPlan>)
        requires
            old(self).next_seq < u64::MAX,
        ensures
            final(self).next_seq == old(self).next_seq + 1,
            final(self).last_snapshot_seq == old(self).last_snapshot_seq,
            snapshot_due(old(self).next_seq, old(self).last_snapshot_seq) ==> (r matches Some(p) && p.module@
                == module@ && p.table@ == table@ && p.seq == old(self).next_seq),
            !snapshot_due(old(self).next_seq, old(self).last_snapshot_seq) ==> r is None,
    {
        let seq = self.next_seq;
        self.next_seq = self.next_seq + 1;
        if seq.saturating_sub(self.last_snapshot_seq) >= SNAPSHOT_INTERVAL {
            Some(SnapshotPlan { module: module.to_owned(), table: table.to_owned(), seq })
        } else {
            None
        }
    }

    /// Note that a snapshot was taken as of the operation numbered `seq`.
    pub fn snapshot_taken(&mut self, seq: u64)
        ensures
            final(self).next_seq == old(self).next_seq,
            final(self).last_snapshot_seq == seq,
    {
        self.last_snapshot_seq = seq;
    }
}


/// One numbered entry of a logged table's log.
#[derive(Clone, Debug)]
pub struct TableLogEntry {
    pub seq: u64,
    pub timestamp_ms: u64,
    pub operation: LogOperation,
}

/// The state of a table of `schema` after the logged operation `op`, or
/// `None` when the operation fails.
pub open spec fn op_step(st: InsertState, schema: TableSchema, op: LogOperation) -> Option<InsertState> {
    match op {
        LogOperation::Insert { row, .. } => match row {
            Some(r) => insert_step(st, schema.primary_key_auto_inc, r@, schema.name@),
            None => None,
        },
        LogOperation::Update { row, .. } => match row {
            Some(r) => if update_refusal(st.rows, st.infos, r@) is None {
                Some(InsertState { rows: st.rows.update(pk_position(st.rows, row_pk(r@)->0), r@), ..st })
            } else {
                None
            },
            None => None,
        },
        LogOperation::Delete { primary_key } => if has_row_with_pk(st.rows, primary_key@) {
            Some(InsertState { rows: swap_removed(st.rows, pk_position(st.rows, primary_key@)), ..st })
        } else {
            None
        },
        LogOperation::Clear => Some(initial_state(schema)),
    }
}

/// The state after the first `n` entries, those numbered after `after`
/// applied in order, and the number of the last one applied (`after` when
/// none is); `None` when one fails.
pub open spec fn replay(st: InsertState, schema: TableSchema, entries: Seq<TableLogEntry>, after: u64, n: int) -> Option<
    (InsertState, u64),
>
    decreases n,
{
    if n <= 0 {
        Some((st, after))
    } else {
        match replay(st, schema, entries, after, n - 1) {
            None => None,
            Some((s, last)) => if entries[n - 1].seq > after {
                match op_step(s, schema, entries[n - 1].operation) {
                    Some(s2) => Some((s2, entries[n - 1].seq)),
                    None => None,
                }
            } else {
                Some((s, last))
            },
        }
    }
}

proof fn lemma_replay_fails(st: InsertState, schema: TableSchema, entries: Seq<TableLogEntry>, after: u64, k: int, n: int)
    requires
        0 <= k <= n,
        replay(st, schema, entries, after, k) is None,
    ensures
        replay(st, schema, entries, after, n) is None,
    decreases n - k,
{
    if n > k {
        lemma_replay_fails(st, schema, entries, after, k, n - 1);
    }
}

/// Apply one logged operation to `table`.
pub fn apply_entry(table: &mut Table, op: &LogOperation) -> (r: Result<(), IntersticeError>)
    requires
        old(table).wf(),
    ensures
        final(table).wf(),
        final(table).table_schema() == old(table).table_schema(),
        match op_step(old(table).insert_state(), old(table).table_schema(), *op) {
            Some(st) => r is Ok && final(table).insert_state() == st,
            None => r is Err,
        },
        (op matches LogOperation::Insert { row: None, .. }) ==> (r matches Err(e) && internal_error(
            e,
            "Missing row data for log insert"@,
        )),
        (op matches LogOperation::Update { row: None, .. }) ==> (r matches Err(e) && internal_error(
            e,
            "Missing row data for log update"@,
        )),
{
    proof {
        table.lemma_name_of_schema();
        table.lemma_pk_auto_inc_of_schema();
        table.lemma_keyed_rows();
    }
    match op {
        LogOperation::Insert { row, .. } => {
            let row = match row {
                Some(r) => r.duplicate(),
                None => {
                    return Err(IntersticeError::Internal("Missing row data for log insert".to_owned()));
                },
            };
            let ghost before = *table;
            let ghost rv = row@;
            let res = table.insert(row);
            proof {
                before.lemma_insert_is_step(table, rv, res is Ok);
                table.lemma_name_of_schema();
            }
            res
        },
        LogOperation::Update { row, .. } => {
            let row = match row {
                Some(r) => r.duplicate(),
                None => {
                    return Err(IntersticeError::Internal("Missing row data for log update".to_owned()));
                },
            };
            match table.update(row) {
                Ok(_) => Ok(()),
                Err(e) => Err(e),
            }
        },
        LogOperation::Delete { primary_key } => {
            let ghost rows0 = table.rows();
            match table.delete(primary_key) {
                Ok(_) => {
                    proof {
                        let k = primary_key@;
                        let p = choose|p: int|
                            0 <= p < rows0.len() && row_pk(rows0[p]) == Some(k) && table.rows() == swap_removed(
                                rows0,
                                p,
                            );
                        let q = pk_position(rows0, k);
                        assert(row_pk(rows0[q]) == Some(k));
                        assert(keyed_rows(rows0));
                        assert(p == q);
                    }
                    Ok(())
                },
                Err(e) => Err(e),
            }
        },
        LogOperation::Clear => {
            table.clear();
            Ok(())
        },
    }
}

/// Replay the `entries` of a table's log onto `table`: those numbered after
/// the snapshot's `snapshot_last_seq`, in order, stopping at the first that
/// fails. Returns the number of the last entry applied.
pub fn replay_entries(table: &mut Table, snapshot_last_seq: u64, entries: &Vec<TableLogEntry>) -> (r: Result<
    u64,
    IntersticeError,
>)
    requires
        old(table).wf(),
    ensures
        final(table).wf(),
        final(table).table_schema() == old(table).table_schema(),
        match replay(old(table).insert_state(), old(table).table_schema(), entries@, snapshot_last_seq, entries@.len() as int) {
            Some((st, last)) => r == Ok::<u64, IntersticeError>(last) && final(table).insert_state() == st,
            None => r is Err,
        },
{
    let ghost st0 = table.insert_state();
    let ghost schema = table.table_schema();
    let mut last_seq = snapshot_last_seq;
    let mut i: usize = 0;
    while i < entries.len()
        invariant
            i <= entries@.len(),
            table.wf(),
            table.table_schema() == schema,
            schema == old(table).table_schema(),
            st0 == old(table).insert_state(),
            replay(st0, schema, entries@, snapshot_last_seq, i as int) == Some((table.insert_state(), last_seq)),
        decreases entries.len() - i,
    {
        let entry = &entries[i];
        if entry.seq > snapshot_last_seq {
            match apply_entry(table, &entry.operation) {
                Ok(()) => {
                    last_seq = entry.seq;
                },
                Err(e) => {
                    proof {
                        lemma_replay_fails(st0, schema, entries@, snapshot_last_seq, i + 1, entries@.len() as int);
                    }
                    return Err(e);
                },
            }
        }
        i = i + 1;
    }
    Ok(last_seq)
}

} // verus!
