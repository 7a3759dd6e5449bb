//! Monotonic counter repair.
//!
//! Devices report cumulative counters (energy in watt-hours, pulse
//! counts) that should only grow, but a reboot or a firmware rollover
//! resets them to (near) zero. The normalizer subtracts an offset from
//! every raw value: the offset starts at the first observed raw value
//! and is moved to the new raw value whenever the raw value decreases
//! (any decrease is read as a reset, not as noise). The last observed
//! raw value is recorded on every observation.

use vstd::prelude::*;

verus! {

/// The offset after observing `raw`, given the previously observed raw
/// value (if any) and the current offset.
pub open spec fn step_offset(last: Option<int>, offset: int, raw: int) -> int {
    match last {
        Option::None => raw,
        Option::Some(l) => if raw < l {
            raw
        } else {
            offset
        },
    }
}

/// The offset in force when the value at position `i` of `raws` is
/// normalized, for a normalizer that saw exactly `raws` from fresh.
pub open spec fn offset_at(raws: Seq<int>, i: int) -> int
    decreases i,
{
    if i <= 0 {
        raws[0]
    } else if raws[i] < raws[i - 1] {
        raws[i]
    } else {
        offset_at(raws, i - 1)
    }
}

/// The normalized value at position `i` of `raws`.
pub open spec fn normalized_at(raws: Seq<int>, i: int) -> int {
    raws[i] - offset_at(raws, i)
}

/// Offset-correcting state for one cumulative counter.
#[derive(Clone, Copy, Debug)]
pub struct CounterNormalizer {
    /// The raw value seen by the previous observation, if any.
    pub last: Option<i64>,
    /// What is subtracted from a raw value to normalize it.
    pub offset: i64,
}

impl CounterNormalizer {
    pub open spec fn wf(self) -> bool {
        match self.last {
            Option::None => self.offset == 0,
            Option::Some(l) => 0 <= self.offset <= l,
        }
    }

    pub open spec fn spec_last_int(self) -> Option<int> {
        match self.last {
            Option::None => Option::None,
            Option::Some(l) => Option::Some(l as int),
        }
    }

    pub fn new() -> (r: CounterNormalizer)
        ensures
            r.last is None,
            r.offset == 0,
            r.wf(),
    {
        CounterNormalizer { last: None, offset: 0 }
    }

    /// Feeds one raw counter value through the normalizer and returns
    /// the normalized value `raw - offset`, with the offset first
    /// updated by the reset rule.
    pub fn observe(&mut self, raw: i64) -> (norm: i64)
        requires
            old(self).wf(),
            0 <= raw,
        ensures
            final(self).wf(),
            final(self).last == Some(raw),
            final(self).offset == step_offset(old(self).spec_last_int(), old(self).offset as int, raw as int),
            norm == raw - final(self).offset,
            0 <= norm <= raw,
    {
        match self.last {
            None => {
                self.offset = raw;
            },
            Some(l) => {
                if raw < l {
                    self.offset = raw;
                }
            },
        }
        self.last = Some(raw);
        raw - self.offset
    }
}

/// The very first observation always normalizes to zero.
pub proof fn lemma_first_normalized_zero(raws: Seq<int>)
    requires
        raws.len() > 0,
    ensures
        normalized_at(raws, 0) == 0,
{
}

/// The offset never exceeds the raw value it is subtracted from, so a
/// normalized value is never negative.
pub proof fn lemma_offset_at_most_raw(raws: Seq<int>, i: int)
    requires
        0 <= i < raws.len(),
    ensures
        offset_at(raws, i) <= raws[i],
        normalized_at(raws, i) >= 0,
    decreases i,
{
    if i > 0 && !(raws[i] < raws[i - 1]) {
        lemma_offset_at_most_raw(raws, i - 1);
    }
}

/// Between two observations without a reset the normalized series does
/// not decrease.
pub proof fn lemma_step_nondecreasing(raws: Seq<int>, i: int)
    requires
        0 <= i < raws.len() - 1,
        raws[i] <= raws[i + 1],
    ensures
        normalized_at(raws, i) <= normalized_at(raws, i + 1),
{
}

/// For a raw sequence without any decrease the whole normalized series
/// is non-decreasing. (A sequence with a reset normalizes the reset
/// observation back to zero, which may be a decrease.)
pub proof fn lemma_nondecreasing_without_reset(raws: Seq<int>)
    requires
        forall|i: int| 0 <= i < raws.len() - 1 ==> #[trigger] raws[i] <= raws[i + 1],
    ensures
        forall|i: int|
            0 <= i < raws.len() - 1 ==> #[trigger] normalized_at(raws, i) <= normalized_at(raws, i + 1),
{
    assert forall|i: int|
        0 <= i < raws.len() - 1 implies #[trigger] normalized_at(raws, i) <= normalized_at(
        raws,
        i + 1,
    ) by {
        lemma_step_nondecreasing(raws, i);
    }
}

} // verus!
