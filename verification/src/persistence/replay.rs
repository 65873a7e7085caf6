//! Reading a transaction log back, to rebuild table state from it without
//! running any reducer.
use vstd::prelude::*;
use crate::persistence::transaction_log::{Transaction, TransactionLog, TransactionView, transactions_view};
use crate::runtime::error::IntersticeError;

verus! {

/// Replays the transactions of a log: hands back the recorded mutations in
/// order, to be applied to tables directly.
pub struct ReplayEngine {
    log: TransactionLog,
}

impl ReplayEngine {
    /// The transactions of the log, in the order they were appended.
    pub closed spec fn entries(&self) -> Seq<TransactionView> {
        self.log.entries()
    }

    pub fn new(log: TransactionLog) -> (r: Self)
        ensures
            r.entries() == log.entries(),
    {
        ReplayEngine { log }
    }

    /// Every transaction of the log, in order.
    pub fn replay_all_transactions(&self) -> (r: Result<Vec<Transaction>, IntersticeError>)
        ensures
            r matches Ok(v) && transactions_view(v@) == self.entries(),
    {
        self.log.read_all()
    }

    /// The number of transactions in the log.
    pub fn transaction_count(&self) -> (r: usize)
        ensures
            r == self.entries().len(),
    {
        self.log.transaction_count()
    }

    /// The number of transactions that read back whole.
    pub fn verify(&self) -> (r: Result<usize, IntersticeError>)
        ensures
            r == Ok::<usize, IntersticeError>(self.entries().len() as usize),
    {
        match self.replay_all_transactions() {
            Ok(txs) => {
                proof {
                    assert(txs@.len() == transactions_view(txs@).len());
                }
                Ok(txs.len())
            },
            Err(e) => Err(e),
        }
    }
}

} // verus!
