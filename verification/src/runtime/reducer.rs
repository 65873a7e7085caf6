//! Calls of reducers and queries: what kind of call a frame runs, and
//! whether a reducer can be scheduled to run later.
use vstd::prelude::*;
use crate::runtime::value::same_text;

verus! {

/// A reducer call or a query call.
#[derive(Debug, Clone, Copy, PartialEq, Eq, Structural)]
pub enum CallFrameKind {
    Reducer,
    Query,
}

/// What scheduling needs to know of a reducer: its name and how many
/// arguments it takes.
#[derive(Debug, Clone)]
pub struct ReducerSignature {
    pub name: String,
    pub argument_count: usize,
}

/// The first of `reducers` named `name`.
pub open spec fn reducer_named(reducers: Seq<ReducerSignature>, name: Seq<char>, n: int) -> Option<int>
    decreases n,
{
    if n <= 0 {
        None
    } else {
        match reducer_named(reducers, name, n - 1) {
            Some(p) => Some(p),
            None => if reducers[n - 1].name@ == name {
                Some(n - 1)
            } else {
                None
            },
        }
    }
}

/// Whether the reducer `reducer` of `module` can be scheduled: it must
/// exist and take no arguments.
pub open spec fn schedule_outcome(module: Seq<char>, reducer: Seq<char>, reducers: Seq<ReducerSignature>) -> Result<(), Seq<char>> {
    match reducer_named(reducers, reducer, reducers.len() as int) {
        None => Err("Reducer '"@ + module + "."@ + reducer + "' not found"@),
        Some(p) => if reducers[p].argument_count == 0 {
            Ok(())
        } else {
            Err("Reducer '"@ + module + "."@ + reducer + "' must have no arguments to be scheduled"@)
        },
    }
}

proof fn lemma_reducer_named_stays(reducers: Seq<ReducerSignature>, name: Seq<char>, k: int, n: int)
    requires
        0 <= k <= n,
        reducer_named(reducers, name, k) is Some,
    ensures
        reducer_named(reducers, name, n) == reducer_named(reducers, name, k),
    decreases n - k,
{
    if n > k {
        lemma_reducer_named_stays(reducers, name, k, n - 1);
    }
}

/// Check that the reducer `reducer_name` of `module_name`, among the
/// module's `reducers`, can be scheduled.
pub fn check_schedule(module_name: &str, reducer_name: &str, reducers: &[ReducerSignature]) -> (r: Result<(), String>)
    ensures
        match schedule_outcome(module_name@, reducer_name@, reducers@) {
            Ok(()) => r is Ok,
            Err(m) => r matches Err(e) && e@ == m,
        },
{
    let mut i: usize = 0;
    while i < reducers.len()
        invariant
            i <= reducers@.len(),
            reducer_named(reducers@, reducer_name@, i as int) is None,
        decreases reducers.len() - i,
    {
        if same_text(reducers[i].name.as_str(), reducer_name) {
            proof {
                lemma_reducer_named_stays(reducers@, reducer_name@, i + 1, reducers@.len() as int);
            }
            if reducers[i].argument_count == 0 {
                return Ok(());
            }
            let mut m = "Reducer '".to_owned();
            m.append(module_name);
            m.append(".");
            m.append(reducer_name);
            m.append("' must have no arguments to be scheduled");
            return Err(m);
        }
        i = i + 1;
    }
    let mut m = "Reducer '".to_owned();
    m.append(module_name);
    m.append(".");
    m.append(reducer_name);
    m.append("' not found");
    Err(m)
}

} // verus!
