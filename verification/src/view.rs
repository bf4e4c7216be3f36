//! The scale between the world, in metres, and the view.

use crate::number::Scalar;
use crate::vector::{vec_divided, vec_scaled, Vec2};
use vstd::prelude::*;

verus! {

/// The bit pattern of the number of metres in one unit of the view, 10^9.
pub const VIEW_SCALE_BITS: u64 = 0x41CD_CD65_0000_0000;

/// The number of metres in one unit of the view.
pub open spec fn view_scale() -> Scalar {
    Scalar { bits: VIEW_SCALE_BITS }
}

/// Where a point of the world appears in the view.
pub fn world_to_view(position: Vec2) -> (r: Vec2)
    ensures
        r == vec_divided(position, view_scale()),
{
    position.divided(Scalar { bits: VIEW_SCALE_BITS })
}

/// The point of the world that a point of the view shows.
pub fn view_to_world(point: Vec2) -> (r: Vec2)
    ensures
        r == vec_scaled(point, view_scale()),
{
    point.scaled(Scalar { bits: VIEW_SCALE_BITS })
}

} // verus!
