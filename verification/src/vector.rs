//! Vectors in the plane, with scalar components.
//!
//! Every operation works component by component, each step rounded as the
//! scalar operation is. A vector is defined where both components are.

use crate::arith::{difference, one, product, quotient, square_root, sum, zero, ONE_BITS};
use crate::number::Scalar;
use vstd::prelude::*;

verus! {

/// A point or a displacement in the plane.
#[derive(Clone, Copy, Debug, PartialEq, Eq, Structural)]
pub struct Vec2 {
    pub x: Scalar,
    pub y: Scalar,
}

/// The vector whose components are both zero.
pub open spec fn zero_vector() -> Vec2 {
    Vec2 { x: zero(), y: zero() }
}

/// The sum of two vectors.
pub open spec fn vec_sum(a: Vec2, b: Vec2) -> Vec2 {
    Vec2 { x: sum(a.x, b.x), y: sum(a.y, b.y) }
}

/// The difference of two vectors.
pub open spec fn vec_difference(a: Vec2, b: Vec2) -> Vec2 {
    Vec2 { x: difference(a.x, b.x), y: difference(a.y, b.y) }
}

/// A vector with each component multiplied by `factor`.
pub open spec fn vec_scaled(v: Vec2, factor: Scalar) -> Vec2 {
    Vec2 { x: product(v.x, factor), y: product(v.y, factor) }
}

/// A vector with each component divided by `divisor`.
pub open spec fn vec_divided(v: Vec2, divisor: Scalar) -> Vec2 {
    Vec2 { x: quotient(v.x, divisor), y: quotient(v.y, divisor) }
}

/// The square of the length of a vector.
pub open spec fn mag_sq_of(v: Vec2) -> Scalar {
    sum(product(v.x, v.x), product(v.y, v.y))
}

/// The length of a vector.
pub open spec fn mag_of(v: Vec2) -> Scalar {
    square_root(mag_sq_of(v))
}

/// The direction of a vector: the vector scaled by the reciprocal of its
/// length. A vector whose length comes out as zero has no direction, and its
/// direction is given as the zero vector. That is so for the zero vector
/// itself and for one so short that its squared length rounds to zero.
pub open spec fn normalized_of(v: Vec2) -> Vec2 {
    if mag_of(v).is_zero() {
        zero_vector()
    } else {
        vec_scaled(v, quotient(one(), mag_of(v)))
    }
}

impl Vec2 {
    /// Whether both components stand for numbers.
    pub open spec fn is_defined(self) -> bool {
        self.x.is_finite() && self.y.is_finite()
    }

    /// The vector with the given components.
    pub fn new(x: Scalar, y: Scalar) -> (r: Vec2)
        ensures
            r == (Vec2 { x, y }),
    {
        Vec2 { x, y }
    }

    /// The vector whose components are both zero.
    pub fn zero() -> (r: Vec2)
        ensures
            r == zero_vector(),
    {
        Vec2 { x: Scalar { bits: 0 }, y: Scalar { bits: 0 } }
    }

    /// Whether both components stand for numbers.
    pub fn defined(self) -> (r: bool)
        ensures
            r == self.is_defined(),
    {
        self.x.finite() && self.y.finite()
    }

    /// The sum of two vectors.
    pub fn plus(self, other: Vec2) -> (r: Vec2)
        ensures
            r == vec_sum(self, other),
    {
        Vec2 { x: self.x.plus(other.x), y: self.y.plus(other.y) }
    }

    /// The difference of two vectors.
    pub fn minus(self, other: Vec2) -> (r: Vec2)
        ensures
            r == vec_difference(self, other),
    {
        Vec2 { x: self.x.minus(other.x), y: self.y.minus(other.y) }
    }

    /// This vector with each component multiplied by `factor`.
    pub fn scaled(self, factor: Scalar) -> (r: Vec2)
        ensures
            r == vec_scaled(self, factor),
    {
        Vec2 { x: self.x.times(factor), y: self.y.times(factor) }
    }

    /// This vector with each component divided by `divisor`.
    pub fn divided(self, divisor: Scalar) -> (r: Vec2)
        ensures
            r == vec_divided(self, divisor),
    {
        Vec2 { x: self.x.over(divisor), y: self.y.over(divisor) }
    }

    /// The square of the length of this vector.
    pub fn mag_sq(self) -> (r: Scalar)
        ensures
            r == mag_sq_of(self),
    {
        self.x.times(self.x).plus(self.y.times(self.y))
    }

    /// The length of this vector.
    pub fn mag(self) -> (r: Scalar)
        ensures
            r == mag_of(self),
    {
        self.mag_sq().root()
    }

    /// The direction of this vector: the vector scaled to length one, or
    /// the zero vector where the length comes out as zero.
    pub fn normalized(self) -> (r: Vec2)
        ensures
            r == normalized_of(self),
    {
        let length: Scalar = self.mag();
        if length.zero_valued() {
            Vec2::zero()
        } else {
            self.scaled((Scalar { bits: ONE_BITS }).over(length))
        }
    }
}

} // verus!
