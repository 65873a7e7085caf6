//! Auto-increment counters for primary keys and indexed fields.
use vstd::prelude::*;
use crate::runtime::error::{IntersticeError, internal, internal_error};
use crate::runtime::schema::IntersticeType;
use crate::runtime::value::{IntersticeValue, ValueView};

verus! {

/// The numeric type an auto-increment column was declared with.
#[derive(Clone, Copy, Debug, PartialEq, Eq, Structural)]
pub enum AutoIncKind {
    U8,
    U32,
    U64,
    I32,
    I64,
}

/// The largest value a column of the given kind holds.
pub open spec fn auto_inc_max(kind: AutoIncKind) -> int {
    match kind {
        AutoIncKind::U8 => u8::MAX as int,
        AutoIncKind::U32 => u32::MAX as int,
        AutoIncKind::U64 => u64::MAX as int,
        AutoIncKind::I32 => i32::MAX as int,
        AutoIncKind::I64 => i64::MAX as int,
    }
}

/// The kind of counter a field type supports, if any.
pub open spec fn auto_inc_kind_of(t: IntersticeType) -> Option<AutoIncKind> {
    match t {
        IntersticeType::U8 => Some(AutoIncKind::U8),
        IntersticeType::U32 => Some(AutoIncKind::U32),
        IntersticeType::U64 => Some(AutoIncKind::U64),
        IntersticeType::I32 => Some(AutoIncKind::I32),
        IntersticeType::I64 => Some(AutoIncKind::I64),
        _ => None,
    }
}

/// The column value of kind `kind` holding the number `n`.
pub open spec fn auto_inc_value(kind: AutoIncKind, n: int) -> ValueView {
    match kind {
        AutoIncKind::U8 => ValueView::U8(n as u8),
        AutoIncKind::U32 => ValueView::U32(n as u32),
        AutoIncKind::U64 => ValueView::U64(n as u64),
        AutoIncKind::I32 => ValueView::I32(n as i32),
        AutoIncKind::I64 => ValueView::I64(n as i64),
    }
}

/// The number held by a value of the counter's kind, if it is of that kind.
pub open spec fn auto_inc_number(kind: AutoIncKind, v: ValueView) -> Option<int> {
    match (kind, v) {
        (AutoIncKind::U8, ValueView::U8(x)) => Some(x as int),
        (AutoIncKind::U32, ValueView::U32(x)) => Some(x as int),
        (AutoIncKind::U64, ValueView::U64(x)) => Some(x as int),
        (AutoIncKind::I32, ValueView::I32(x)) => Some(x as int),
        (AutoIncKind::I64, ValueView::I64(x)) => Some(x as int),
        _ => None,
    }
}

/// A counter: its kind and the next number it hands out.
pub struct AutoIncView {
    pub kind: AutoIncKind,
    pub next: int,
}

/// The state of one auto-increment counter: its kind and the next number,
/// counted in 64 bits whatever the kind.
#[derive(Debug)]
pub struct AutoIncState {
    kind: AutoIncKind,
    raw: u64,
}

impl View for AutoIncState {
    type V = AutoIncView;

    closed spec fn view(&self) -> AutoIncView {
        AutoIncView { kind: self.kind, next: self.raw as int }
    }
}

/// The content of an optional counter.
pub open spec fn counter_view(c: Option<AutoIncState>) -> Option<AutoIncView> {
    match c {
        Some(s) => Some(s@),
        None => None,
    }
}

/// The message for a number past what a column of the kind holds.
pub open spec fn overflow_text(kind: AutoIncKind) -> Seq<char> {
    match kind {
        AutoIncKind::U8 => "auto_inc overflow (U8)"@,
        AutoIncKind::U32 => "auto_inc overflow (U32)"@,
        AutoIncKind::U64 => "auto_inc overflow (U64)"@,
        AutoIncKind::I32 => "auto_inc overflow (I32)"@,
        AutoIncKind::I64 => "auto_inc overflow (I64)"@,
    }
}

/// The counter state after `next_value`, and what it returns: the current
/// number, if the column holds it. The counter moves on either way, and
/// wraps to zero past the largest 64-bit number.
pub open spec fn auto_inc_step(c: AutoIncView) -> (AutoIncView, Option<ValueView>) {
    let next = if c.next + 1 <= u64::MAX { c.next + 1 } else { 0 };
    (
        AutoIncView { kind: c.kind, next },
        if c.next <= auto_inc_max(c.kind) {
            Some(auto_inc_value(c.kind, c.next))
        } else {
            None
        },
    )
}

/// The outcome of `sync_from_value`: the new counter, or the error message.
/// A value whose successor does not fit 64 bits is refused; the counter
/// moves past the value, and never back.
pub open spec fn auto_inc_sync(c: AutoIncView, v: ValueView) -> Result<AutoIncView, Seq<char>> {
    match auto_inc_number(c.kind, v) {
        None => Err("auto_inc value type mismatch"@),
        Some(n) => if (c.kind == AutoIncKind::U64 || c.kind == AutoIncKind::I64) && n == auto_inc_max(c.kind) {
            Err("auto_inc overflow"@)
        } else if n + 1 > c.next {
            Ok(AutoIncView { kind: c.kind, next: n + 1 })
        } else {
            Ok(c)
        },
    }
}

impl AutoIncState {
    /// A fresh counter at zero for a field of type `field_type`, if that type
    /// can be auto-incremented.
    pub fn from_type(field_type: &IntersticeType) -> (s: Option<Self>)
        ensures
            match auto_inc_kind_of(*field_type) {
                None => s is None,
                Some(k) => s matches Some(st) && st@ == (AutoIncView { kind: k, next: 0 }),
            },
    {
        let kind = match field_type {
            IntersticeType::U8 => AutoIncKind::U8,
            IntersticeType::U32 => AutoIncKind::U32,
            IntersticeType::U64 => AutoIncKind::U64,
            IntersticeType::I32 => AutoIncKind::I32,
            IntersticeType::I64 => AutoIncKind::I64,
            _ => {
                return None;
            },
        };
        Some(AutoIncState { kind, raw: 0 })
    }

    /// Hand out the current number and move on; fails when the number does
    /// not fit the column type (the counter moves on all the same).
    pub fn next_value(&mut self) -> (res: Result<IntersticeValue, IntersticeError>)
        ensures
            final(self)@ == auto_inc_step(old(self)@).0,
            match auto_inc_step(old(self)@).1 {
                Some(v) => res matches Ok(x) && x@ == v,
                None => res matches Err(e) && internal_error(e, overflow_text(old(self)@.kind)),
            },
    {
        let id = self.raw;
        self.raw = if id == u64::MAX { 0 } else { id + 1 };
        match self.kind {
            AutoIncKind::U8 => {
                if id > 255 {
                    return Err(internal("auto_inc overflow (U8)"));
                }
                Ok(IntersticeValue::U8(id as u8))
            },
            AutoIncKind::U32 => {
                if id > 0xffff_ffff {
                    return Err(internal("auto_inc overflow (U32)"));
                }
                Ok(IntersticeValue::U32(id as u32))
            },
            AutoIncKind::U64 => Ok(IntersticeValue::U64(id)),
            AutoIncKind::I32 => {
                if id > 0x7fff_ffff {
                    return Err(internal("auto_inc overflow (I32)"));
                }
                Ok(IntersticeValue::I32(id as i32))
            },
            AutoIncKind::I64 => {
                if id > 0x7fff_ffff_ffff_ffff {
                    return Err(internal("auto_inc overflow (I64)"));
                }
                Ok(IntersticeValue::I64(id as i64))
            },
        }
    }

    /// Advance the counter past `value`, so that the next number handed out
    /// is strictly greater than it.
    pub fn sync_from_value(&mut self, value: &IntersticeValue) -> (res: Result<(), IntersticeError>)
        ensures
            match auto_inc_sync(old(self)@, value@) {
                Ok(c) => res is Ok && final(self)@ == c,
                Err(m) => res matches Err(e) && internal_error(e, m) && *final(self) == *old(self),
            },
            final(self)@.kind == old(self)@.kind,
            final(self)@.next >= old(self)@.next,
            res is Ok ==> (auto_inc_number(old(self)@.kind, value@) matches Some(n) && final(self)@.next > n),
    {
        let candidate: u64 = match (self.kind, value) {
            (AutoIncKind::U8, IntersticeValue::U8(v)) => *v as u64 + 1,
            (AutoIncKind::U32, IntersticeValue::U32(v)) => *v as u64 + 1,
            (AutoIncKind::U64, IntersticeValue::U64(v)) => {
                if *v == u64::MAX {
                    return Err(internal("auto_inc overflow"));
                }
                *v + 1
            },
            (AutoIncKind::I32, IntersticeValue::I32(v)) => {
                if *v < 0 {
                    return Ok(());
                }
                *v as u64 + 1
            },
            (AutoIncKind::I64, IntersticeValue::I64(v)) => {
                if *v == i64::MAX {
                    return Err(internal("auto_inc overflow"));
                }
                if *v < 0 {
                    return Ok(());
                }
                *v as u64 + 1
            },
            _ => {
                return Err(internal("auto_inc value type mismatch"));
            },
        };
        if candidate > self.raw {
            self.raw = candidate;
        }
        Ok(())
    }

    /// Start the counter over at zero.
    pub fn reset(&mut self)
        ensures
            final(self)@ == (AutoIncView { kind: old(self)@.kind, next: 0 }),
    {
        self.raw = 0;
    }
}

/// The counter after `n` numbers were drawn from `c`.
pub open spec fn after_draws(c: AutoIncView, n: nat) -> AutoIncView
    decreases n,
{
    if n == 0 {
        c
    } else {
        auto_inc_step(after_draws(c, (n - 1) as nat)).0
    }
}

/// A fresh counter hands out 0, 1, 2, ... in turn: the `k`-th draw gives
/// `k`, for every `k` the column type holds.
pub proof fn lemma_sequential_values(kind: AutoIncKind, k: nat)
    requires
        k <= auto_inc_max(kind),
    ensures
        after_draws(AutoIncView { kind, next: 0 }, k).next == k,
        after_draws(AutoIncView { kind, next: 0 }, k).kind == kind,
        auto_inc_step(after_draws(AutoIncView { kind, next: 0 }, k)).1 == Some(auto_inc_value(kind, k as int)),
    decreases k,
{
    if k > 0 {
        lemma_sequential_values(kind, (k - 1) as nat);
    }
}

/// Syncing a counter never moves it back, and once a value of the
/// counter's kind is synced, the counter is past it: the next number
/// handed out is greater than every value seen. Only a value of the wrong
/// kind, or the largest 64-bit value (which has no successor), is refused.
pub proof fn lemma_sync_moves_forward(c: AutoIncView, v: ValueView)
    requires
        0 <= c.next <= u64::MAX,
    ensures
        auto_inc_sync(c, v) matches Ok(c2) ==> c2.kind == c.kind && c2.next >= c.next && 0 <= c2.next <= u64::MAX,
        auto_inc_sync(c, v) matches Ok(c2) ==> (auto_inc_number(c.kind, v) matches Some(n) && c2.next > n),
        auto_inc_sync(c, v) is Err ==> auto_inc_number(c.kind, v) is None || auto_inc_number(c.kind, v) == Some(
            u64::MAX as int,
        ) || auto_inc_number(c.kind, v) == Some(i64::MAX as int),
{
}

/// Syncing one value and then another leaves the counter past both,
/// whatever their order.
pub proof fn lemma_sync_past_both(c: AutoIncView, v: ValueView, w: ValueView)
    requires
        0 <= c.next <= u64::MAX,
        auto_inc_sync(c, v) is Ok,
        auto_inc_sync(auto_inc_sync(c, v)->Ok_0, w) is Ok,
    ensures
        ({
            let c2 = auto_inc_sync(auto_inc_sync(c, v)->Ok_0, w)->Ok_0;
            &&& auto_inc_number(c.kind, v) matches Some(n) && c2.next > n
            &&& auto_inc_number(c.kind, w) matches Some(m) && c2.next > m
            &&& c2.next >= c.next
        }),
{
    lemma_sync_moves_forward(c, v);
    lemma_sync_moves_forward(auto_inc_sync(c, v)->Ok_0, w);
}

} // verus!
