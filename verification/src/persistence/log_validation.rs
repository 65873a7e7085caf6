//! Checking a transaction log: how many of its transactions are valid, and
//! what modules and tables it touches.
use vstd::prelude::*;
use crate::runtime::value::{decimal, decimal_string, same_text};
use crate::persistence::replay::ReplayEngine;
use crate::persistence::transaction_log::{TransactionView, transactions_view};

verus! {

/// The outcome of checking a log.
#[derive(Debug, Clone)]
pub struct ValidationResult {
    /// The transactions in the log.
    pub total_transactions: usize,
    /// The transactions that passed the check.
    pub valid_transactions: usize,
    /// What was found wrong.
    pub errors: Vec<String>,
}

impl ValidationResult {
    /// Nothing was found wrong and every transaction is valid.
    pub fn is_valid(&self) -> (r: bool)
        ensures
            r == (self.errors@.len() == 0 && self.total_transactions == self.valid_transactions),
    {
        self.errors.len() == 0 && self.total_transactions == self.valid_transactions
    }
}

/// Checks transaction logs.
pub struct LogValidator;

/// The message for a log of which only part verified.
pub open spec fn incomplete_message(valid: usize, total: usize) -> Seq<char> {
    "Incomplete log: "@ + decimal(valid as nat) + " of "@ + decimal(total as nat) + " transactions valid"@
}

impl LogValidator {
    /// The result of checking the log an engine replays: every transaction
    /// it holds reads back, so the log is valid.
    pub fn validate_log(engine: &ReplayEngine) -> (r: ValidationResult)
        ensures
            r.total_transactions == engine.entries().len(),
            r.valid_transactions == engine.entries().len(),
            r.errors@.len() == 0,
    {
        let total_count = engine.transaction_count();
        let valid_count = engine.verify().unwrap();
        Self::validate(total_count, Ok(valid_count))
    }

    /// The result of checking a log of `total_count` transactions, given
    /// what verifying them gave: the number of valid transactions, or why
    /// verification failed.
    pub fn validate(total_count: usize, verified: Result<usize, String>) -> (r: ValidationResult)
        ensures
            r.total_transactions == total_count,
            match verified {
                Ok(valid) => {
                    &&& r.valid_transactions == valid
                    &&& valid == total_count ==> r.errors@.len() == 0
                    &&& valid != total_count ==> r.errors@.len() == 1 && r.errors@[0]@ == incomplete_message(
                        valid,
                        total_count,
                    )
                },
                Err(e) => {
                    &&& r.valid_transactions == 0
                    &&& r.errors@.len() == 1
                    &&& r.errors@[0]@ == "Log verification failed: "@ + e@
                },
            },
    {
        let mut errors: Vec<String> = Vec::new();
        match verified {
            Ok(valid_count) => {
                if valid_count != total_count {
                    let mut m = "Incomplete log: ".to_owned();
                    m.append(decimal_string(valid_count).as_str());
                    m.append(" of ");
                    m.append(decimal_string(total_count).as_str());
                    m.append(" transactions valid");
                    errors.push(m);
                }
                ValidationResult { total_transactions: total_count, valid_transactions: valid_count, errors }
            },
            Err(e) => {
                let mut m = "Log verification failed: ".to_owned();
                m.append(e.as_str());
                errors.push(m);
                ValidationResult { total_transactions: total_count, valid_transactions: 0, errors }
            },
        }
    }
}

/// What a log holds.
#[derive(Debug, Clone)]
pub struct LogInfo {
    pub path: String,
    pub file_size_bytes: u64,
    pub transaction_count: usize,
    pub modules: Vec<String>,
    pub tables: Vec<String>,
}

pub open spec fn texts(v: Seq<String>) -> Seq<Seq<char>> {
    v.map_values(|s: String| s@)
}

/// Each text of `names` once, in the order of first appearance.
pub fn distinct_texts(names: &Vec<String>) -> (r: Vec<String>)
    ensures
        texts(r@).no_duplicates(),
        forall|t: Seq<char>| texts(r@).contains(t) <==> texts(names@).contains(t),
{
    let mut r: Vec<String> = Vec::new();
    let mut i: usize = 0;
    while i < names.len()
        invariant
            i <= names@.len(),
            texts(r@).no_duplicates(),
            forall|t: Seq<char>| texts(r@).contains(t) <==> texts(names@.take(i as int)).contains(t),
        decreases names.len() - i,
    {
        let mut j: usize = 0;
        let mut seen = false;
        while j < r.len()
            invariant
                j <= r@.len(),
                seen == exists|q: int| 0 <= q < j && r@[q]@ == names@[i as int]@,
                i < names@.len(),
            decreases r.len() - j,
        {
            if same_text(r[j].as_str(), names[i].as_str()) {
                seen = true;
            }
            j = j + 1;
        }
        let ghost before = r@;
        proof {
            assert(texts(names@.take(i + 1)) =~= texts(names@.take(i as int)).push(names@[i as int]@));
            if seen {
                let q = choose|q: int| 0 <= q < j && r@[q]@ == names@[i as int]@;
                assert(texts(r@)[q] == names@[i as int]@);
            } else {
                assert forall|q: int| 0 <= q < texts(r@).len() implies texts(r@)[q] != names@[i as int]@ by {
                    assert(texts(r@)[q] == r@[q]@);
                }
            }
        }
        if !seen {
            r.push(names[i].clone());
            proof {
                assert(texts(r@) =~= texts(before).push(names@[i as int]@));
            }
        }
        proof {
            let x = names@[i as int]@;
            let a = texts(names@.take(i as int));
            let b = texts(names@.take(i + 1));
            assert(texts(r@).contains(x)) by {
                if seen {
                    let q = choose|q: int| 0 <= q < j && before[q]@ == x;
                    assert(texts(r@)[q] == x);
                } else {
                    assert(texts(r@)[before.len() as int] == x);
                }
            }
            assert forall|t: Seq<char>| texts(r@).contains(t) <==> b.contains(t) by {
                if b.contains(t) {
                    let q = choose|q: int| 0 <= q < b.len() && b[q] == t;
                    if q < a.len() {
                        assert(a[q] == t);
                        assert(a.contains(t));
                        assert(texts(before).contains(t));
                        let w = choose|w: int| 0 <= w < texts(before).len() && texts(before)[w] == t;
                        assert(texts(r@)[w] == t);
                    }
                }
                if texts(r@).contains(t) {
                    let q = choose|q: int| 0 <= q < texts(r@).len() && texts(r@)[q] == t;
                    if q < before.len() {
                        assert(texts(before)[q] == t);
                        assert(texts(before).contains(t));
                        let w = choose|w: int| 0 <= w < a.len() && a[w] == t;
                        assert(b[w] == t);
                    } else {
                        assert(t == x);
                        assert(b[i as int] == x);
                    }
                }
            }
        }
        i = i + 1;
    }
    assert(names@.take(i as int) =~= names@);
    r
}

impl LogInfo {
    /// What a log at `path` of `file_size_bytes` bytes holds, given the
    /// module and the table of each of its transactions.
    pub fn from_transactions(
        path: String,
        file_size_bytes: u64,
        module_names: &Vec<String>,
        table_names: &Vec<String>,
    ) -> (r: Self)
        requires
            module_names@.len() == table_names@.len(),
        ensures
            r.path@ == path@,
            r.file_size_bytes == file_size_bytes,
            r.transaction_count == module_names@.len(),
            texts(r.modules@).no_duplicates(),
            forall|t: Seq<char>| texts(r.modules@).contains(t) <==> texts(module_names@).contains(t),
            texts(r.tables@).no_duplicates(),
            forall|t: Seq<char>| texts(r.tables@).contains(t) <==> texts(table_names@).contains(t),
    {
        LogInfo {
            path,
            file_size_bytes,
            transaction_count: module_names.len(),
            modules: distinct_texts(module_names),
            tables: distinct_texts(table_names),
        }
    }
}

/// The module of each transaction, in order.
pub open spec fn module_names_of(entries: Seq<TransactionView>) -> Seq<Seq<char>> {
    entries.map_values(|t: TransactionView| t.module_name)
}

/// The table of each transaction, in order.
pub open spec fn table_names_of(entries: Seq<TransactionView>) -> Seq<Seq<char>> {
    entries.map_values(|t: TransactionView| t.table_name)
}

impl LogValidator {
    /// What the log an engine replays holds: its transaction count and each
    /// module and table it touches, once; `path` and `file_size_bytes` say
    /// where the log lies and how large it is.
    pub fn inspect_log(path: String, file_size_bytes: u64, engine: &ReplayEngine) -> (r: LogInfo)
        ensures
            r.path@ == path@,
            r.file_size_bytes == file_size_bytes,
            r.transaction_count == engine.entries().len(),
            texts(r.modules@).no_duplicates(),
            forall|t: Seq<char>| texts(r.modules@).contains(t) <==> module_names_of(engine.entries()).contains(t),
            texts(r.tables@).no_duplicates(),
            forall|t: Seq<char>| texts(r.tables@).contains(t) <==> table_names_of(engine.entries()).contains(t),
    {
        let txs = engine.replay_all_transactions().unwrap();
        let ghost entries = transactions_view(txs@);
        let mut modules: Vec<String> = Vec::new();
        let mut tables: Vec<String> = Vec::new();
        let mut i: usize = 0;
        while i < txs.len()
            invariant
                i <= txs@.len(),
                entries == transactions_view(txs@),
                modules@.len() == i,
                tables@.len() == i,
                forall|j: int| 0 <= j < i ==> (#[trigger] modules@[j])@ == entries[j].module_name,
                forall|j: int| 0 <= j < i ==> (#[trigger] tables@[j])@ == entries[j].table_name,
            decreases txs.len() - i,
        {
            modules.push(txs[i].module_name.clone());
            tables.push(txs[i].table_name.clone());
            i = i + 1;
        }
        proof {
            assert(texts(modules@) =~= module_names_of(entries));
            assert(texts(tables@) =~= table_names_of(entries));
        }
        LogInfo::from_transactions(path, file_size_bytes, &modules, &tables)
    }
}

} // verus!
