//! Reducers scheduled to run at a later time: how long to wait for the
//! next one, and which are due.
use vstd::prelude::*;
use vstd::multiset::Multiset;
use crate::runtime::value::{
    KeyOrder, chars_lt, compare_strings, lemma_chars_lt_asymmetric, lemma_chars_lt_irreflexive,
    lemma_chars_lt_total, lemma_chars_lt_transitive,
};

verus! {

/// How long to wait when no timer is pending, in milliseconds.
pub const IDLE_WAIT_MS: u64 = 3_600_000;

/// A reducer to run once the clock reaches `wake_at` (in milliseconds).
#[derive(Debug, Clone)]
pub struct Timer {
    pub wake_at: u64,
    pub module_name: String,
    pub reducer_name: String,
}

impl View for Timer {
    type V = (u64, Seq<char>, Seq<char>);

    open spec fn view(&self) -> (u64, Seq<char>, Seq<char>) {
        (self.wake_at, self.module_name@, self.reducer_name@)
    }
}

/// Timers run in order of their time, then module, then reducer name.
pub open spec fn timer_lt(a: (u64, Seq<char>, Seq<char>), b: (u64, Seq<char>, Seq<char>)) -> bool {
    a.0 < b.0 || (a.0 == b.0 && (chars_lt(a.1, b.1) || (a.1 == b.1 && chars_lt(a.2, b.2))))
}

proof fn lemma_timer_order(a: (u64, Seq<char>, Seq<char>), b: (u64, Seq<char>, Seq<char>), c: (
    u64,
    Seq<char>,
    Seq<char>,
))
    ensures
        !timer_lt(a, a),
        timer_lt(a, b) && timer_lt(b, c) ==> timer_lt(a, c),
        timer_lt(a, b) ==> !timer_lt(b, a),
{
    lemma_chars_lt_irreflexive(a.1);
    lemma_chars_lt_irreflexive(a.2);
    if chars_lt(a.1, b.1) {
        lemma_chars_lt_asymmetric(a.1, b.1);
    }
    if chars_lt(a.2, b.2) {
        lemma_chars_lt_asymmetric(a.2, b.2);
    }
    if chars_lt(a.1, b.1) && chars_lt(b.1, c.1) {
        lemma_chars_lt_transitive(a.1, b.1, c.1);
    }
    if chars_lt(a.2, b.2) && chars_lt(b.2, c.2) {
        lemma_chars_lt_transitive(a.2, b.2, c.2);
    }
}

pub open spec fn timers_view(v: Seq<Timer>) -> Seq<(u64, Seq<char>, Seq<char>)> {
    v.map_values(|t: Timer| t@)
}

/// The earliest time among the first `n` timers.
pub open spec fn earliest(s: Seq<(u64, Seq<char>, Seq<char>)>, n: int) -> u64
    decreases n,
{
    if n <= 1 {
        s[0].0
    } else {
        let e = earliest(s, n - 1);
        if s[n - 1].0 < e {
            s[n - 1].0
        } else {
            e
        }
    }
}

fn timer_less(a: &Timer, b: &Timer) -> (r: bool)
    ensures
        r == timer_lt(a@, b@),
{
    if a.wake_at != b.wake_at {
        return a.wake_at < b.wake_at;
    }
    match compare_strings(a.module_name.as_str(), b.module_name.as_str()) {
        KeyOrder::Less => true,
        KeyOrder::Greater => false,
        KeyOrder::Equal => match compare_strings(a.reducer_name.as_str(), b.reducer_name.as_str()) {
            KeyOrder::Less => true,
            _ => false,
        },
    }
}

/// The timers waiting to fire.
pub struct TimerQueue {
    timers: Vec<Timer>,
}

impl TimerQueue {
    /// The pending timers, in the order they were scheduled.
    pub closed spec fn pending(&self) -> Seq<(u64, Seq<char>, Seq<char>)> {
        timers_view(self.timers@)
    }

    pub fn new() -> (r: Self)
        ensures
            r.pending().len() == 0,
    {
        let r = TimerQueue { timers: Vec::new() };
        assert(r.pending() =~= Seq::<(u64, Seq<char>, Seq<char>)>::empty());
        r
    }

    /// How many timers are pending.
    pub fn pending_count(&self) -> (r: usize)
        ensures
            r == self.pending().len(),
    {
        self.timers.len()
    }

    /// Add a timer.
    pub fn schedule(&mut self, timer: Timer)
        ensures
            final(self).pending() == old(self).pending().push(timer@),
    {
        let ghost v = timer@;
        self.timers.push(timer);
        assert(self.pending() =~= old(self).pending().push(v));
    }

    /// Take out the timers due at time `now` (those whose time has come),
    /// in the order they run: by time, then module, then reducer name. The
    /// others stay pending.
    pub fn take_due(&mut self, now: u64) -> (r: Vec<Timer>)
        ensures
            timers_view(r@).to_multiset().add(final(self).pending().to_multiset()) == old(self).pending().to_multiset(),
            forall|i: int| 0 <= i < r@.len() ==> (#[trigger] r@[i]).wake_at <= now,
            forall|i: int| 0 <= i < final(self).pending().len() ==> (#[trigger] final(self).pending()[i]).0 > now,
            forall|i: int, j: int| 0 <= i < j < r@.len() ==> !timer_lt((#[trigger] r@[j])@, (#[trigger] r@[i])@),
    {
        broadcast use vstd::seq_lib::group_to_multiset_ensures;
        broadcast use vstd::multiset::group_multiset_properties;

        let ghost all = self.pending();
        let mut due: Vec<Timer> = Vec::new();
        let mut keep: Vec<Timer> = Vec::new();
        let mut i: usize = 0;
        while i < self.timers.len()
            invariant
                i <= self.timers@.len(),
                all == self.pending(),
                all.len() == self.timers@.len(),
                timers_view(due@).to_multiset().add(timers_view(keep@).to_multiset()) == all.take(i as int).to_multiset(),
                forall|j: int| 0 <= j < due@.len() ==> (#[trigger] due@[j]).wake_at <= now,
                forall|j: int| 0 <= j < keep@.len() ==> (#[trigger] keep@[j]).wake_at > now,
            decreases self.timers.len() - i,
        {
            let ghost tv = self.timers@[i as int]@;
            let ghost d0 = timers_view(due@);
            let ghost k0 = timers_view(keep@);
            let copy = Timer {
                wake_at: self.timers[i].wake_at,
                module_name: self.timers[i].module_name.clone(),
                reducer_name: self.timers[i].reducer_name.clone(),
            };
            assert(copy@ == tv);
            if copy.wake_at <= now {
                due.push(copy);
                proof {
                    assert(timers_view(due@) =~= d0.push(tv));
                    vstd::seq_lib::to_multiset_build(d0, tv);
                    vstd::seq_lib::to_multiset_build(all.take(i as int), tv);
                    assert(d0.to_multiset().insert(tv).add(k0.to_multiset()) =~= d0.to_multiset().add(
                        k0.to_multiset(),
                    ).insert(tv));
                }
            } else {
                keep.push(copy);
                proof {
                    assert(timers_view(keep@) =~= k0.push(tv));
                    vstd::seq_lib::to_multiset_build(k0, tv);
                    vstd::seq_lib::to_multiset_build(all.take(i as int), tv);
                    assert(d0.to_multiset().add(k0.to_multiset().insert(tv)) =~= d0.to_multiset().add(
                        k0.to_multiset(),
                    ).insert(tv));
                }
            }
            assert(all.take(i + 1) =~= all.take(i as int).push(tv));
            i = i + 1;
        }
        assert(all.take(i as int) =~= all);
        let ghost due_ms = timers_view(due@).to_multiset();
        let mut out: Vec<Timer> = Vec::new();
        while due.len() > 0
            invariant
                timers_view(out@).to_multiset().add(timers_view(due@).to_multiset()) == due_ms,
                forall|j: int| 0 <= j < due@.len() ==> (#[trigger] due@[j]).wake_at <= now,
                forall|j: int| 0 <= j < out@.len() ==> (#[trigger] out@[j]).wake_at <= now,
                forall|a: int, b: int| 0 <= a < b < out@.len() ==> !timer_lt((#[trigger] out@[b])@, (#[trigger] out@[a])@),
                forall|a: int, b: int|
                    0 <= a < out@.len() && 0 <= b < due@.len() ==> !timer_lt((#[trigger] due@[b])@, (#[trigger] out@[a])@),
            decreases due@.len(),
        {
            let mut m: usize = 0;
            let mut k: usize = 1;
            proof {
                lemma_timer_order(due@[0]@, due@[0]@, due@[0]@);
            }
            while k < due.len()
                invariant
                    m < due@.len(),
                    1 <= k <= due@.len(),
                    forall|j: int| 0 <= j < k ==> !timer_lt((#[trigger] due@[j])@, due@[m as int]@),
                decreases due@.len() - k,
            {
                if timer_less(&due[k], &due[m]) {
                    proof {
                        assert forall|j: int| 0 <= j < k + 1 implies !timer_lt((#[trigger] due@[j])@, due@[k as int]@) by {
                            lemma_timer_order(due@[j]@, due@[k as int]@, due@[m as int]@);
                            lemma_timer_order(due@[k as int]@, due@[k as int]@, due@[k as int]@);
                        }
                    }
                    m = k;
                }
                k = k + 1;
            }
            let ghost d0 = timers_view(due@);
            let ghost o0 = timers_view(out@);
            let ghost dv = due@;
            let ghost ov = out@;
            let t = due.remove(m);
            proof {
                assert(timers_view(due@) =~= d0.remove(m as int));
            }
            out.push(t);
            proof {
                assert(timers_view(out@) =~= o0.push(d0[m as int]));
                vstd::seq_lib::to_multiset_build(o0, d0[m as int]);
                vstd::seq_lib::to_multiset_remove(d0, m as int);
                assert(timers_view(out@).to_multiset() == o0.to_multiset().insert(d0[m as int]));
                assert(timers_view(due@).to_multiset() == d0.to_multiset().remove(d0[m as int]));
                vstd::seq_lib::to_multiset_contains(d0, d0[m as int]);
                assert(d0.contains(d0[m as int]));
                assert(d0.to_multiset().count(d0[m as int]) > 0);
                assert(timers_view(out@).to_multiset().add(timers_view(due@).to_multiset()) =~= o0.to_multiset().add(
                    d0.to_multiset(),
                ));
                assert forall|b: int| 0 <= b < due@.len() implies (#[trigger] due@[b]).wake_at <= now by {
                    if b < m {
                        assert(due@[b] == dv[b]);
                    } else {
                        assert(due@[b] == dv[b + 1]);
                    }
                }
                assert forall|a: int, b: int| 0 <= a < b < out@.len() implies !timer_lt(
                    (#[trigger] out@[b])@,
                    (#[trigger] out@[a])@,
                ) by {
                    if b == out@.len() - 1 {
                        assert(out@[b] == dv[m as int]);
                        assert(out@[a] == ov[a]);
                    } else {
                        assert(out@[b] == ov[b] && out@[a] == ov[a]);
                    }
                }
                assert forall|a: int, b: int|
                    0 <= a < out@.len() && 0 <= b < due@.len() implies !timer_lt(
                    (#[trigger] due@[b])@,
                    (#[trigger] out@[a])@,
                ) by {
                    let bb = if b < m { b } else { b + 1 };
                    assert(due@[b] == dv[bb]);
                    if a == out@.len() - 1 {
                        assert(out@[a] == dv[m as int]);
                    } else {
                        assert(out@[a] == ov[a]);
                    }
                }
            }
        }
        proof {
            assert(timers_view(due@).to_multiset() =~= Multiset::empty());
        }
        self.timers = keep;
        out
    }

    /// How long to wait, at time `now`, before the next timer is due:
    /// nothing when one is due already, a long idle wait when none is
    /// pending.
    pub fn wait_time(&self, now: u64) -> (r: u64)
        ensures
            self.pending().len() == 0 ==> r == IDLE_WAIT_MS,
            self.pending().len() > 0 ==> {
                let e = earliest(self.pending(), self.pending().len() as int);
                r == if e <= now {
                    0
                } else {
                    (e - now) as u64
                }
            },
    {
        if self.timers.len() == 0 {
            return IDLE_WAIT_MS;
        }
        let ghost s = self.pending();
        let mut e = self.timers[0].wake_at;
        let mut i: usize = 1;
        while i < self.timers.len()
            invariant
                1 <= i <= self.timers@.len(),
                s == self.pending(),
                s.len() == self.timers@.len(),
                e == earliest(s, i as int),
            decreases self.timers.len() - i,
        {
            assert(s[i as int] == self.timers@[i as int]@);
            if self.timers[i].wake_at < e {
                e = self.timers[i].wake_at;
            }
            i = i + 1;
        }
        if e <= now {
            0
        } else {
            e - now
        }
    }
}

} // verus!
