//! The speed multiplier: how many simulated seconds pass in one second of
//! real time, and the rules by which a user changes it.

use crate::arith::{product, quotient};
use crate::number::Scalar;
use vstd::prelude::*;

verus! {

/// The bit pattern of the ratio between one speed and the next, 1.1.
pub const SPEED_RATIO_BITS: u64 = 0x3FF1_9999_9999_999A;

/// The bit pattern of the speed at or below which the speed is not lowered
/// any more, 10^-6.
pub const SPEED_FLOOR_BITS: u64 = 0x3EB0_C6F7_A0B5_ED8D;

/// The ratio between one speed and the next.
pub open spec fn speed_ratio() -> Scalar {
    Scalar { bits: SPEED_RATIO_BITS }
}

/// The speed at or below which the speed is not lowered any more.
pub open spec fn speed_floor() -> Scalar {
    Scalar { bits: SPEED_FLOOR_BITS }
}

/// Whether a speed is a number at or below the floor.
pub open spec fn at_floor(speed: Scalar) -> bool {
    speed.is_finite() && speed.scaled_value() <= speed_floor().scaled_value()
}

/// The speed after one request to go faster.
pub open spec fn faster(speed: Scalar) -> Scalar {
    product(speed, speed_ratio())
}

/// The speed after one request to go slower: a speed at the floor stays.
pub open spec fn slower(speed: Scalar) -> Scalar {
    if at_floor(speed) {
        speed
    } else {
        quotient(speed, speed_ratio())
    }
}

/// The speed after one frame of input. A request to go faster is applied
/// before a request to go slower.
pub open spec fn adjusted_speed(speed: Scalar, raise: bool, lower: bool) -> Scalar {
    let after_raise: Scalar = if raise {
        faster(speed)
    } else {
        speed
    };
    if lower {
        slower(after_raise)
    } else {
        after_raise
    }
}

/// The length of a frame in simulated time: the real time that passed, times
/// the speed.
pub open spec fn frame_length(elapsed: Scalar, speed: Scalar) -> Scalar {
    product(elapsed, speed)
}

/// Multiplies the speed by the ratio.
pub fn raise_speed(speed: Scalar) -> (r: Scalar)
    ensures
        r == faster(speed),
{
    speed.times(Scalar { bits: SPEED_RATIO_BITS })
}

/// Divides the speed by the ratio, unless it is at the floor already.
pub fn lower_speed(speed: Scalar) -> (r: Scalar)
    ensures
        r == slower(speed),
{
    let floor: Scalar = Scalar { bits: SPEED_FLOOR_BITS };
    if speed.finite() && !floor.less_than(speed) {
        speed
    } else {
        speed.over(Scalar { bits: SPEED_RATIO_BITS })
    }
}

/// Applies one frame of input to the speed: first the request to go faster,
/// if any, then the request to go slower, if any.
pub fn adjust_speed(speed: Scalar, raise: bool, lower: bool) -> (r: Scalar)
    ensures
        r == adjusted_speed(speed, raise, lower),
{
    let after_raise: Scalar = if raise {
        raise_speed(speed)
    } else {
        speed
    };
    if lower {
        lower_speed(after_raise)
    } else {
        after_raise
    }
}

/// The length of a frame in simulated time.
pub fn frame_step(elapsed: Scalar, speed: Scalar) -> (r: Scalar)
    ensures
        r == frame_length(elapsed, speed),
{
    elapsed.times(speed)
}

} // verus!
