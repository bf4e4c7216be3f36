//! The sub-step count ("precision") and the rules by which a user changes it.
//!
//! One frame of simulated time is cut into `count` equal sub-steps. A count of
//! zero would leave nothing to divide the frame by, so every rule here keeps a
//! positive count positive.

use vstd::prelude::*;

verus! {

/// The largest sub-step count that can still be doubled.
pub const MAX_DOUBLABLE: u32 = 0x7FFF_FFFF;

/// The count after one request for more precision: twice as many sub-steps.
pub open spec fn raised(count: u32) -> int {
    2 * count
}

/// The count after one request for less precision: half as many sub-steps,
/// rounded down, except that a count of one or zero is left alone.
pub open spec fn lowered(count: int) -> int {
    if count <= 1 {
        count
    } else {
        count / 2
    }
}

/// The count after one frame of input. A request to raise is applied before a
/// request to lower, so both together give the count back unchanged.
pub open spec fn adjusted(count: u32, raise: bool, lower: bool) -> int {
    let after_raise = if raise {
        raised(count)
    } else {
        count as int
    };
    if lower {
        lowered(after_raise)
    } else {
        after_raise
    }
}

/// Doubles the sub-step count.
pub fn raise_precision(count: u32) -> (r: u32)
    requires
        count <= MAX_DOUBLABLE,
    ensures
        r == raised(count),
{
    count * 2
}

/// Halves the sub-step count, never going below one.
pub fn lower_precision(count: u32) -> (r: u32)
    ensures
        r == lowered(count as int),
{
    if count <= 1 {
        count
    } else {
        count / 2
    }
}

/// Applies one frame of input to the sub-step count: first the request to
/// raise it, if any, then the request to lower it, if any.
pub fn adjust_precision(count: u32, raise: bool, lower: bool) -> (r: u32)
    requires
        raise ==> count <= MAX_DOUBLABLE,
    ensures
        r == adjusted(count, raise, lower),
{
    let after_raise: u32 = if raise {
        raise_precision(count)
    } else {
        count
    };
    if lower {
        lower_precision(after_raise)
    } else {
        after_raise
    }
}

/// A positive sub-step count stays positive under every input.
pub proof fn lemma_adjusted_stays_positive(count: u32, raise: bool, lower: bool)
    requires
        count >= 1,
    ensures
        adjusted(count, raise, lower) >= 1,
{
}

/// Lowering undoes raising: a count that was doubled and then halved is the
/// count that was there before.
pub proof fn lemma_lower_undoes_raise(count: u32)
    ensures
        lowered(raised(count)) == count,
{
}

} // verus!
