//! Checks that replaying a log gives the same result run after run: the
//! record of such a check, and how one is set up.
use vstd::prelude::*;

verus! {

/// What one replay run produced.
#[derive(Debug, Clone)]
pub struct ReplaySnapshot {
    pub run_number: u32,
    pub transaction_count: usize,
    pub final_state_hash: u64,
    pub duration_ms: u128,
}

/// The outcome of a determinism check.
#[derive(Debug)]
pub struct DeterminismCheckResult {
    pub is_deterministic: bool,
    pub runs_performed: usize,
    pub snapshots: Vec<ReplaySnapshot>,
    pub divergence_point: Option<usize>,
    pub error_message: Option<String>,
}

/// The snapshot a run starts out with before it replays anything.
pub open spec fn blank_snapshot(s: ReplaySnapshot, run_number: int) -> bool {
    &&& s.run_number == run_number
    &&& s.transaction_count == 0
    &&& s.final_state_hash == 0
    &&& s.duration_ms == 0
}

impl DeterminismCheckResult {
    /// A check of `runs` runs that has found nothing wrong yet.
    pub fn new(runs: usize) -> (r: Self)
        ensures
            r.is_deterministic,
            r.runs_performed == runs,
            r.snapshots@.len() == 0,
            r.divergence_point is None,
            r.error_message is None,
    {
        DeterminismCheckResult {
            is_deterministic: true,
            runs_performed: runs,
            snapshots: Vec::new(),
            divergence_point: None,
            error_message: None,
        }
    }

    pub fn add_snapshot(&mut self, snapshot: ReplaySnapshot)
        ensures
            final(self).snapshots@ == old(self).snapshots@.push(snapshot),
            final(self).is_deterministic == old(self).is_deterministic,
            final(self).runs_performed == old(self).runs_performed,
            final(self).divergence_point == old(self).divergence_point,
            final(self).error_message == old(self).error_message,
    {
        self.snapshots.push(snapshot);
    }

    /// Mark the runs as diverging at transaction `at_transaction`.
    pub fn mark_divergence(&mut self, at_transaction: usize, message: &str)
        ensures
            !final(self).is_deterministic,
            final(self).divergence_point == Some(at_transaction),
            final(self).error_message matches Some(m) && m@ == message@,
            final(self).snapshots@ == old(self).snapshots@,
            final(self).runs_performed == old(self).runs_performed,
    {
        self.is_deterministic = false;
        self.divergence_point = Some(at_transaction);
        self.error_message = Some(message.to_owned());
    }
}

/// Set up a determinism check of `runs` replays of the log at `log_path`,
/// where `log_exists` tells whether that file exists. The runs are
/// numbered from 1; the count is taken as a `u32`.
pub fn check_determinism(log_exists: bool, log_path: &str, runs: usize) -> (r: Result<DeterminismCheckResult, String>)
    ensures
        !log_exists ==> (r matches Err(e) && e@ == "Log file not found: "@ + log_path@),
        log_exists && runs < 2 ==> (r matches Err(e) && e@ == "Must perform at least 2 runs to check determinism"@),
        log_exists && runs >= 2 ==> (r matches Ok(res) && {
            &&& res.is_deterministic
            &&& res.runs_performed == runs
            &&& res.divergence_point is None
            &&& res.error_message is None
            &&& res.snapshots@.len() == runs as u32
            &&& forall|i: int| 0 <= i < res.snapshots@.len() ==> blank_snapshot(#[trigger] res.snapshots@[i], i + 1)
        }),
{
    if !log_exists {
        let mut e = "Log file not found: ".to_owned();
        e.append(log_path);
        return Err(e);
    }
    if runs < 2 {
        return Err("Must perform at least 2 runs to check determinism".to_owned());
    }
    let mut result = DeterminismCheckResult::new(runs);
    let last: u32 = runs as u32;
    let mut k: u32 = 0;
    while k < last
        invariant
            k <= last,
            last == runs as u32,
            result.is_deterministic,
            result.runs_performed == runs,
            result.divergence_point is None,
            result.error_message is None,
            result.snapshots@.len() == k,
            forall|i: int| 0 <= i < k ==> blank_snapshot(#[trigger] result.snapshots@[i], i + 1),
        decreases last - k,
    {
        let snapshot = ReplaySnapshot { run_number: k + 1, transaction_count: 0, final_state_hash: 0, duration_ms: 0 };
        result.add_snapshot(snapshot);
        k = k + 1;
    }
    Ok(result)
}

} // verus!
