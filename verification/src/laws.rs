//! What holds of the forces and of the motion, whatever the bodies.

use crate::arith::{negated, one, product, quotient, square_root, sum, zero};
use crate::arith_laws::{
    lemma_difference_of_equals, lemma_difference_reversed, lemma_negated_is_opposite,
    lemma_opposites_cancel, lemma_pattern_order_is_number_order, lemma_product_commutes,
    lemma_product_needs_numbers, lemma_product_of_opposite, lemma_product_sign,
    lemma_quotient_needs_numbers, lemma_quotient_shrinks, lemma_root_of_zero,
    lemma_product_grows, lemma_rounded_parts, lemma_size_of_one, lemma_square_grows,
    lemma_square_of_opposite, lemma_sum_grows, lemma_sum_needs_numbers, lemma_sum_of_zeros,
    lemma_sum_within,
    lemma_sum_with_zero, lemma_zero_divided, lemma_zero_has_no_size, lemma_zero_times,
    not_negative, opposite_numbers, same_number,
};
use crate::number::{
    lemma_magnitude_increases, lemma_magnitude_nonnegative, lemma_magnitude_of_parts,
    lemma_next_size, lemma_sizes_compare, magnitude, Scalar, INFINITE,
};
use crate::physics::{
    advanced, all_massive, attraction, force_bound, four, gravity, integrated,
    lemma_advance_keeps_masses, net_force, pair_force, pulled_until, softened_distance,
    softening, Body,
};
use crate::rounding::{
    lemma_nearest_is_close, lemma_nearest_keeps_order, lemma_nearest_of_held,
    lemma_nearest_root_is_close, Exact,
};
use crate::vector::{
    mag_of, mag_sq_of, normalized_of, vec_difference, vec_divided, vec_scaled, vec_sum,
    zero_vector, Vec2,
};
use vstd::arithmetic::power2::*;
use vstd::prelude::*;

verus! {

/// Whether two vectors agree, component by component, as numbers.
pub open spec fn same_vector(a: Vec2, b: Vec2) -> bool {
    same_number(a.x, b.x) && same_number(a.y, b.y)
}

/// Whether two vectors are of the same length and point in opposite
/// directions.
pub open spec fn opposite_vectors(a: Vec2, b: Vec2) -> bool {
    opposite_numbers(a.x, b.x) && opposite_numbers(a.y, b.y)
}

/// Opposite vectors have the same length.
pub proof fn lemma_length_of_opposite(v: Vec2, w: Vec2)
    requires
        opposite_vectors(v, w),
    ensures
        mag_of(v) == mag_of(w),
{
    lemma_square_of_opposite(v.x, w.x);
    lemma_square_of_opposite(v.y, w.y);
}

/// The length of a vector is not negative.
pub proof fn lemma_length_is_not_negative(v: Vec2)
    requires
        mag_of(v).is_finite(),
    ensures
        not_negative(mag_of(v)),
        v.is_defined(),
{
    reveal(square_root);
    reveal(sum);
    reveal(product);
    let square: Scalar = mag_sq_of(v);
    assert(square.is_finite());
    assert(product(v.x, v.x).is_finite() && product(v.y, v.y).is_finite());
    assert(v.x.is_finite() && v.y.is_finite());
    lemma_product_sign(v.x, v.x);
    lemma_product_sign(v.y, v.y);
    lemma_sum_grows(product(v.x, v.x), product(v.y, v.y));
    lemma_magnitude_nonnegative(square.pattern());
    lemma_pow2_pos(1074);
    let radicand: int = magnitude(square.pattern()) * pow2(1074);
    assert(radicand >= 0) by (nonlinear_arith)
        requires
            radicand == magnitude(square.pattern()) * pow2(1074),
            magnitude(square.pattern()) >= 0,
            pow2(1074) > 0,
    ;
    lemma_rounded_parts(false, Exact::Root { radicand });
}

/// Two bodies attract each other with forces of one size: the size of the
/// force does not depend on which of the two it is computed for.
pub proof fn lemma_attraction_is_mutual(a: Body, b: Body)
    ensures
        softened_distance(a, b) == softened_distance(b, a),
        attraction(a, b) == attraction(b, a),
{
    lemma_difference_reversed(b.position.x, a.position.x);
    lemma_difference_reversed(b.position.y, a.position.y);
    lemma_length_of_opposite(
        vec_difference(b.position, a.position),
        vec_difference(a.position, b.position),
    );
    lemma_product_commutes(a.mass, b.mass);
}

/// Opposite vectors have opposite directions.
pub proof fn lemma_direction_of_opposite(v: Vec2, w: Vec2)
    requires
        opposite_vectors(v, w),
    ensures
        opposite_vectors(normalized_of(v), normalized_of(w)),
{
    lemma_length_of_opposite(v, w);
    if mag_of(v).is_zero() {
        lemma_magnitude_nonnegative(0);
    } else {
        let reciprocal: Scalar = quotient(one(), mag_of(v));
        lemma_product_of_opposite(v.x, w.x, reciprocal);
        lemma_product_of_opposite(v.y, w.y, reciprocal);
    }
}

/// The force that one body exerts on another is opposite to the force that
/// it receives from it: of the same size in each component, with the other
/// sign.
pub proof fn lemma_pair_force_is_mutual(a: Body, b: Body)
    ensures
        opposite_vectors(pair_force(a, b), pair_force(b, a)),
{
    let there: Vec2 = vec_difference(b.position, a.position);
    let back: Vec2 = vec_difference(a.position, b.position);
    lemma_difference_reversed(b.position.x, a.position.x);
    lemma_difference_reversed(b.position.y, a.position.y);
    lemma_direction_of_opposite(there, back);
    lemma_attraction_is_mutual(a, b);
    let size: Scalar = attraction(a, b);
    lemma_product_of_opposite(normalized_of(there).x, normalized_of(back).x, size);
    lemma_product_of_opposite(normalized_of(there).y, normalized_of(back).y, size);
}

/// With no body or with one, no body feels a force.
pub proof fn lemma_lonely_body_feels_nothing(bodies: Seq<Body>, index: int)
    requires
        bodies.len() <= 1,
        0 <= index < bodies.len(),
    ensures
        net_force(bodies, index) == zero_vector(),
{
    assert(pulled_until(bodies, 0, 0) == zero_vector());
    assert(pulled_until(bodies, 0, 1) == pulled_until(bodies, 0, 0));
}

/// The forces on two bodies, written out: what the second exerts on the
/// first is added to nothing for the one, and taken from nothing for the
/// other.
pub proof fn lemma_two_body_forces(bodies: Seq<Body>)
    requires
        bodies.len() == 2,
    ensures
        net_force(bodies, 0) == vec_sum(zero_vector(), pair_force(bodies[0], bodies[1])),
        net_force(bodies, 1) == vec_difference(zero_vector(), pair_force(bodies[0], bodies[1])),
{
    assert(pulled_until(bodies, 0, 0) == zero_vector());
    assert(pulled_until(bodies, 0, 1) == pulled_until(bodies, 0, 0));
    assert(pulled_until(bodies, 0, 2) == vec_sum(
        pulled_until(bodies, 0, 1),
        pair_force(bodies[0], bodies[1]),
    ));
    assert(pulled_until(bodies, 1, 0) == zero_vector());
    assert(pulled_until(bodies, 1, 1) == vec_difference(
        pulled_until(bodies, 1, 0),
        pair_force(bodies[0], bodies[1]),
    ));
    assert(pulled_until(bodies, 1, 2) == pulled_until(bodies, 1, 1));
}

/// In a system of two bodies the two forces are equal in size and opposite
/// in direction: each component of the one is the opposite number of that
/// component of the other, or both are undefined.
pub proof fn lemma_two_body_symmetry(bodies: Seq<Body>)
    requires
        bodies.len() == 2,
    ensures
        opposite_vectors(net_force(bodies, 0), net_force(bodies, 1)),
        same_vector(net_force(bodies, 0), pair_force(bodies[0], bodies[1])),
{
    lemma_two_body_forces(bodies);
    let f: Vec2 = pair_force(bodies[0], bodies[1]);
    lemma_sum_with_zero(zero(), f.x);
    lemma_sum_with_zero(zero(), f.y);
    lemma_negated_is_opposite(f.x);
    lemma_negated_is_opposite(f.y);
    lemma_sum_with_zero(zero(), negated(f.x));
    lemma_sum_with_zero(zero(), negated(f.y));
}

/// In a system of two bodies the forces add up to nothing: where a component
/// of the forces is defined, its sum over both bodies is zero.
pub proof fn lemma_two_body_forces_cancel(bodies: Seq<Body>)
    requires
        bodies.len() == 2,
    ensures
        net_force(bodies, 0).x.is_finite() ==> sum(
            net_force(bodies, 0).x,
            net_force(bodies, 1).x,
        ).is_zero(),
        net_force(bodies, 0).y.is_finite() ==> sum(
            net_force(bodies, 0).y,
            net_force(bodies, 1).y,
        ).is_zero(),
{
    lemma_two_body_symmetry(bodies);
    let first: Vec2 = net_force(bodies, 0);
    let second: Vec2 = net_force(bodies, 1);
    if first.x.is_finite() {
        lemma_opposites_cancel(first.x, second.x);
        lemma_zero_has_no_size(sum(first.x, second.x));
    }
    if first.y.is_finite() {
        lemma_opposites_cancel(first.y, second.y);
        lemma_zero_has_no_size(sum(first.y, second.y));
    }
}

/// The velocity of a body on which no force acts does not depend on where
/// the body is.
proof fn lemma_free_velocity(body: Body, dt: Scalar)
    requires
        body.velocity.is_defined(),
        body.mass.is_finite(),
        body.mass.scaled_value() > 0,
        dt.is_finite(),
    ensures
        same_vector(integrated(body, zero_vector(), dt).velocity, body.velocity),
        integrated(body, zero_vector(), dt).mass == body.mass,
{
    lemma_zero_has_no_size(body.mass);
    lemma_zero_divided(zero(), body.mass);
    let acceleration: Scalar = quotient(zero(), body.mass);
    lemma_zero_times(acceleration, dt);
    lemma_sum_with_zero(product(acceleration, dt), body.velocity.x);
    lemma_sum_with_zero(product(acceleration, dt), body.velocity.y);
}

/// A body on which no force acts keeps its velocity, as a number, and moves
/// along it: the new position is the old one plus the velocity times the
/// length of the step.
pub proof fn lemma_free_motion(body: Body, dt: Scalar)
    requires
        body.is_valid(),
        dt.is_finite(),
    ensures
        same_vector(integrated(body, zero_vector(), dt).velocity, body.velocity),
        integrated(body, zero_vector(), dt).position == vec_sum(
            body.position,
            vec_scaled(integrated(body, zero_vector(), dt).velocity, dt),
        ),
        integrated(body, zero_vector(), dt).mass == body.mass,
{
    lemma_free_velocity(body, dt);
}

/// A body that is alone keeps its velocity, as a number, through any number
/// of steps.
pub proof fn lemma_lonely_body_keeps_velocity(body: Body, dt: Scalar, steps: nat)
    requires
        body.is_valid(),
        dt.is_finite(),
    ensures
        advanced(seq![body], dt, steps).len() == 1,
        same_vector(advanced(seq![body], dt, steps)[0].velocity, body.velocity),
        advanced(seq![body], dt, steps)[0].mass == body.mass,
    decreases steps,
{
    if steps > 0 {
        lemma_lonely_body_keeps_velocity(body, dt, (steps - 1) as nat);
        let before: Seq<Body> = advanced(seq![body], dt, (steps - 1) as nat);
        lemma_lonely_body_feels_nothing(before, 0);
        let earlier: Body = before[0];
        if earlier.position.is_defined() {
            lemma_free_motion(earlier, dt);
        } else {
            lemma_free_velocity(earlier, dt);
        }
    }
}

/// The softened distance is never less than the softening length.
pub proof fn lemma_distance_is_softened(a: Body, b: Body)
    requires
        softened_distance(a, b).is_finite(),
    ensures
        not_negative(softened_distance(a, b)),
        softened_distance(a, b).pattern() >= softening().pattern(),
        softening().pattern() > 0,
{
    reveal(sum);
    let length: Scalar = mag_of(vec_difference(b.position, a.position));
    assert(length.is_finite());
    lemma_length_is_not_negative(vec_difference(b.position, a.position));
    lemma_sum_grows(length, softening());
}

/// The square of the softening length is a number above zero.
pub proof fn lemma_softening_square()
    ensures
        product(softening(), softening()).is_finite(),
        product(softening(), softening()).pattern() > 0,
{
    reveal(product);
    let h: int = 0x10_0000_0000_0000;
    let k: int = softening().pattern();
    // the softening length is 100: digits 25 * 2^48 at exponent 1028
    let digits: int = 0x19_0000_0000_0000;
    assert(k == 1028 * h + digits);
    lemma_magnitude_of_parts(1028, digits);
    let m: int = magnitude(k);
    // its square is 10000: digits 625 * 2^43 at exponent 1035
    let square_digits: int = 0x13_8800_0000_0000;
    let target: int = 1035 * h + square_digits;
    lemma_magnitude_of_parts(1035, square_digits);
    let unit: int = pow2(1074) as int;
    lemma2_to64_rest();
    lemma_pow2_pos(1074);
    lemma_pow2_adds(1028, 1028);
    lemma_pow2_adds(1035, 1074);
    lemma_pow2_adds(2056, 53);
    let p: int = pow2(1028) as int;
    let q: int = pow2(1035) as int;
    let w: int = pow2(2056) as int;
    assert(digits * digits == square_digits * 0x20_0000_0000_0000);
    assert(m * m == magnitude(target) * unit) by (nonlinear_arith)
        requires
            m == digits * p,
            magnitude(target) == square_digits * q,
            w == p * p,
            q * unit == w * 0x20_0000_0000_0000,
            digits * digits == square_digits * 0x20_0000_0000_0000,
    ;
    assert(m * m >= 0) by (nonlinear_arith);
    let x: Exact = Exact::Ratio { num: m * m, den: unit };
    lemma_rounded_parts(false, x);
    lemma_nearest_of_held(target);
    lemma_magnitude_nonnegative(target);
    assert((m * m) * 1 == magnitude(target) * unit);
    lemma_nearest_keeps_order(magnitude(target), 1, m * m, unit);
    lemma_nearest_keeps_order(m * m, unit, magnitude(target), 1);
}

/// Softening bounds the force. The size of the force between two bodies
/// whose masses are not negative, where it is defined, is not negative, and
/// not more than the bound where that is defined. Where the bound is
/// defined, so is the size of the force, unless the square of the softened
/// distance is undefined.
pub proof fn lemma_attraction_is_bounded(a: Body, b: Body)
    requires
        not_negative(a.mass),
        not_negative(b.mass),
    ensures
        attraction(a, b).is_finite() ==> not_negative(attraction(a, b)),
        attraction(a, b).is_finite() && force_bound(a, b).is_finite() ==> attraction(
            a,
            b,
        ).scaled_value() <= force_bound(a, b).scaled_value(),
        force_bound(a, b).is_finite() && product(
            softened_distance(a, b),
            softened_distance(a, b),
        ).is_finite() ==> attraction(a, b).is_finite(),
{
    let d: Scalar = softened_distance(a, b);
    let dd: Scalar = product(d, d);
    let s: Scalar = softening();
    let ss: Scalar = product(s, s);
    let masses: Scalar = product(a.mass, b.mass);
    let top: Scalar = product(gravity(), masses);
    assert(attraction(a, b) == quotient(top, dd));
    assert(force_bound(a, b) == quotient(top, ss));
    if attraction(a, b).is_finite() {
        lemma_quotient_needs_numbers(top, dd);
    }
    if force_bound(a, b).is_finite() {
        lemma_quotient_needs_numbers(top, ss);
    }
    if dd.is_finite() && top.is_finite() {
        lemma_product_needs_numbers(d, d);
        lemma_product_needs_numbers(gravity(), masses);
        lemma_distance_is_softened(a, b);
        lemma_square_grows(s, d);
        lemma_product_sign(a.mass, b.mass);
        lemma_product_sign(gravity(), masses);
        lemma_softening_square();
        if attraction(a, b).is_finite() {
            assert(not_negative(top));
            assert(not_negative(dd));
        }
        if force_bound(a, b).is_finite() {
            lemma_quotient_shrinks(top, ss, dd);
            lemma_pattern_order_is_number_order(quotient(top, dd), quotient(top, ss));
        }
    }
}

/// The length of the zero vector is zero.
pub proof fn lemma_length_of_nothing()
    ensures
        mag_of(zero_vector()) == zero(),
{
    lemma_zero_times(zero(), zero());
    lemma_product_sign(zero(), zero());
    assert(product(zero(), zero()) == zero());
    lemma_sum_of_zeros();
    lemma_root_of_zero();
}

/// A length of zero added to the softening length gives the softening
/// length.
pub proof fn lemma_softened_nothing()
    ensures
        sum(zero(), softening()) == softening(),
{
    reveal(sum);
    lemma_magnitude_nonnegative(0);
    let k: int = softening().pattern();
    lemma_magnitude_increases(0, k);
    lemma_nearest_of_held(k);
}

/// Two bodies whose distance comes out as zero pull at each other with no
/// force. The size of the force is the bound itself, but there is no
/// direction for it to act in: the force is the zero vector, which is
/// defined and whose length, zero, is within the bound.
pub proof fn lemma_force_at_no_distance(a: Body, b: Body)
    requires
        a.has_mass(),
        b.has_mass(),
        mag_of(vec_difference(b.position, a.position)).is_zero(),
        force_bound(a, b).is_finite(),
    ensures
        softened_distance(a, b) == softening(),
        attraction(a, b) == force_bound(a, b),
        pair_force(a, b) == zero_vector(),
        pair_force(a, b).is_defined(),
        mag_of(pair_force(a, b)) == zero(),
        0 == mag_of(pair_force(a, b)).scaled_value() <= force_bound(a, b).scaled_value(),
{
    let d: Vec2 = vec_difference(b.position, a.position);
    lemma_length_is_not_negative(d);
    assert(mag_of(d) == zero());
    lemma_softened_nothing();
    lemma_attraction_is_bounded(a, b);
    let size: Scalar = attraction(a, b);
    lemma_zero_times(zero(), size);
    lemma_product_sign(zero(), size);
    assert(product(zero(), size) == zero());
    lemma_length_of_nothing();
    lemma_magnitude_nonnegative(0);
    lemma_magnitude_nonnegative(size.pattern());
}

/// Two bodies at one place attract each other with exactly the bound, and,
/// having no direction to pull in, with the zero vector for a force.
pub proof fn lemma_attraction_at_one_place(a: Body, b: Body)
    requires
        a.position == b.position,
        a.position.is_defined(),
    ensures
        softened_distance(a, b) == softening(),
        attraction(a, b) == force_bound(a, b),
        a.has_mass() && b.has_mass() && force_bound(a, b).is_finite() ==> pair_force(a, b)
            == zero_vector(),
{
    lemma_difference_of_equals(a.position.x);
    lemma_difference_of_equals(a.position.y);
    assert(vec_difference(b.position, a.position) == zero_vector());
    lemma_length_of_nothing();
    lemma_softened_nothing();
    if a.has_mass() && b.has_mass() && force_bound(a, b).is_finite() {
        lemma_force_at_no_distance(a, b);
    }
}

/// Gravity attracts: where a component of the force on a body is a number
/// other than zero, it has the sign of that component of the way to the
/// other body.
pub proof fn lemma_force_points_to_the_other(a: Body, b: Body)
    requires
        a.has_mass(),
        b.has_mass(),
    ensures
        pair_force(a, b).x.is_finite() && !pair_force(a, b).x.is_zero() ==> pair_force(
            a,
            b,
        ).x.is_negative() == vec_difference(b.position, a.position).x.is_negative(),
        pair_force(a, b).y.is_finite() && !pair_force(a, b).y.is_zero() ==> pair_force(
            a,
            b,
        ).y.is_negative() == vec_difference(b.position, a.position).y.is_negative(),
{
    let d: Vec2 = vec_difference(b.position, a.position);
    let size: Scalar = attraction(a, b);
    let length: Scalar = mag_of(d);
    lemma_zero_has_no_size(a.mass);
    lemma_zero_has_no_size(b.mass);
    lemma_attraction_is_bounded(a, b);
    if length.is_zero() {
        if pair_force(a, b).x.is_finite() {
            lemma_product_needs_numbers(zero(), size);
            lemma_zero_times(zero(), size);
        }
        if pair_force(a, b).y.is_finite() {
            lemma_product_needs_numbers(zero(), size);
            lemma_zero_times(zero(), size);
        }
    } else {
        let reciprocal: Scalar = quotient(one(), length);
        if pair_force(a, b).x.is_finite() {
            lemma_product_needs_numbers(product(d.x, reciprocal), size);
            lemma_product_needs_numbers(d.x, reciprocal);
            lemma_quotient_needs_numbers(one(), length);
            lemma_length_is_not_negative(d);
            lemma_product_sign(d.x, reciprocal);
            lemma_product_sign(product(d.x, reciprocal), size);
        }
        if pair_force(a, b).y.is_finite() {
            lemma_product_needs_numbers(product(d.y, reciprocal), size);
            lemma_product_needs_numbers(d.y, reciprocal);
            lemma_quotient_needs_numbers(one(), length);
            lemma_length_is_not_negative(d);
            lemma_product_sign(d.y, reciprocal);
            lemma_product_sign(product(d.y, reciprocal), size);
        }
    }
}

/// A body that is undefined stays undefined, whatever force moves it.
pub proof fn lemma_undefined_stays(body: Body, force: Vec2, dt: Scalar)
    requires
        !body.is_defined(),
    ensures
        !integrated(body, force, dt).is_defined(),
{
    let after: Body = integrated(body, force, dt);
    let velocity: Vec2 = after.velocity;
    let change: Vec2 = vec_scaled(vec_divided(force, body.mass), dt);
    if velocity.x.is_finite() {
        lemma_sum_needs_numbers(body.velocity.x, change.x);
    }
    if velocity.y.is_finite() {
        lemma_sum_needs_numbers(body.velocity.y, change.y);
    }
    let moved: Vec2 = vec_scaled(velocity, dt);
    if after.position.x.is_finite() {
        lemma_sum_needs_numbers(body.position.x, moved.x);
        lemma_product_needs_numbers(velocity.x, dt);
    }
    if after.position.y.is_finite() {
        lemma_sum_needs_numbers(body.position.y, moved.y);
        lemma_product_needs_numbers(velocity.y, dt);
    }
}

/// Once a body is undefined it is undefined after every later step: a frame
/// that ends with all bodies defined had them defined all the way.
pub proof fn lemma_divergence_persists(
    bodies: Seq<Body>,
    dt: Scalar,
    early: nat,
    late: nat,
    index: int,
)
    requires
        early <= late,
        0 <= index < bodies.len(),
        !advanced(bodies, dt, early)[index].is_defined(),
    ensures
        !advanced(bodies, dt, late)[index].is_defined(),
    decreases late - early,
{
    if early < late {
        lemma_divergence_persists(bodies, dt, early, (late - 1) as nat, index);
        let before: Seq<Body> = advanced(bodies, dt, (late - 1) as nat);
        lemma_advance_keeps_masses(bodies, dt, (late - 1) as nat);
        lemma_undefined_stays(before[index], net_force(before, index), dt);
    }
}

/// The scalar four stands for the number four.
pub proof fn lemma_size_of_four()
    ensures
        four().is_finite(),
        !four().is_negative(),
        four().pattern() < INFINITE,
        magnitude(four().pattern()) == 4 * pow2(1074),
{
    let h: int = 0x10_0000_0000_0000;
    assert(four().pattern() == 1024 * h + h);
    lemma_magnitude_of_parts(1024, h);
    lemma2_to64();
    lemma2_to64_rest();
    lemma_pow2_adds(52, 1022);
    lemma_pow2_adds(2, 1022);
    assert(h * pow2(1024) == 4 * pow2(1074)) by (nonlinear_arith)
        requires
            pow2(1074) == h * pow2(1022),
            pow2(1024) == 4 * pow2(1022),
    ;
}

/// One component of a vector, divided by the length of the vector as it is
/// computed, is a number of size at most four. Exactly it is at most one;
/// the roundings on the way to the length, coarse where the square of the
/// component is almost too small for the format, can add to it.
pub proof fn lemma_share_of_length(c: Scalar, squares: Scalar)
    requires
        c.is_finite(),
        product(c, c).is_finite(),
        not_negative(squares),
        !squares.is_zero(),
        product(c, c).pattern() <= squares.pattern(),
        square_root(squares).is_finite(),
    ensures
        !square_root(squares).is_zero(),
        quotient(one(), square_root(squares)).is_finite(),
        product(c, quotient(one(), square_root(squares))).is_finite(),
        product(c, quotient(one(), square_root(squares))).pattern() <= four().pattern(),
{
    reveal(product);
    reveal(square_root);
    reveal(quotient);
    let length: Scalar = square_root(squares);
    let reciprocal: Scalar = quotient(one(), length);
    let u: int = pow2(1074) as int;
    let x: int = magnitude(c.pattern());
    let p: int = magnitude(product(c, c).pattern());
    let s: int = magnitude(squares.pattern());
    let m: int = magnitude(length.pattern());
    lemma_pow2_pos(1074);
    lemma_magnitude_nonnegative(c.pattern());
    lemma_sizes_compare(product(c, c).pattern(), squares.pattern());
    lemma_next_size(squares.pattern());
    // the square of the component is not much more than the sum of squares
    assert(x * x >= 0) by (nonlinear_arith);
    lemma_rounded_parts(false, Exact::Ratio { num: x * x, den: u });
    lemma_nearest_is_close(x * x, u);
    assert(2 * (x * x) <= 3 * (s * u)) by (nonlinear_arith)
        requires
            product(c, c).pattern() >= 1 ==> 2 * (x * x) <= 3 * p * u,
            product(c, c).pattern() == 0 ==> 2 * (x * x) <= u,
            product(c, c).pattern() >= 0,
            s >= p,
            s >= 1,
            u > 0,
            p >= 0,
    ;
    // the length is not much less than the root of that sum
    let radicand: int = s * u;
    assert(radicand >= u) by (nonlinear_arith)
        requires
            radicand == s * u,
            s >= 1,
            u > 0,
    ;
    lemma_rounded_parts(false, Exact::Root { radicand });
    lemma_nearest_root_is_close(radicand);
    assert(4 * radicand <= 9 * (m * m));
    lemma_magnitude_nonnegative(length.pattern());
    assert(x <= 2 * m) by (nonlinear_arith)
        requires
            2 * (x * x) <= 3 * radicand,
            4 * radicand <= 9 * (m * m),
            x >= 0,
            m >= 0,
    ;
    // the length is at least 2^-538, so that its reciprocal is in range
    lemma2_to64();
    lemma2_to64_rest();
    lemma_pow2_adds(536, 536);
    lemma_pow2_adds(1072, 2);
    lemma_pow2_pos(536);
    let low: int = pow2(536) as int;
    assert(m >= low) by (nonlinear_arith)
        requires
            4 * u <= 9 * (m * m),
            u == 4 * (low * low),
            m >= 0,
            low > 0,
    ;
    lemma_size_of_one();
    let h: int = 0x10_0000_0000_0000;
    let top: int = 1560 * h + h;
    lemma_magnitude_of_parts(1560, h);
    lemma_pow2_adds(52, 1560);
    lemma_pow2_adds(1612, 536);
    lemma_pow2_adds(1074, 1074);
    lemma_pow2_pos(1612);
    assert(u * u <= magnitude(top) * m) by (nonlinear_arith)
        requires
            magnitude(top) == pow2(1612),
            pow2(1612) * low == u * u,
            m >= low,
            pow2(1612) > 0,
    ;
    assert(u * u >= 0) by (nonlinear_arith);
    lemma_nearest_of_held(top);
    assert((u * u) * 1 <= magnitude(top) * m);
    lemma_nearest_keeps_order(u * u, m, magnitude(top), 1);
    lemma_rounded_parts(false, Exact::Ratio { num: u * u, den: m });
    assert(reciprocal.is_finite());
    lemma_nearest_is_close(u * u, m);
    let r: int = magnitude(reciprocal.pattern());
    assert(r * m <= 2 * (u * u));
    // the component times the reciprocal is at most four
    lemma_magnitude_nonnegative(reciprocal.pattern());
    assert(x * r <= 4 * (u * u)) by (nonlinear_arith)
        requires
            0 <= x <= 2 * m,
            r * m <= 2 * (u * u),
            r >= 0,
            m > 0,
    ;
    assert(x * r >= 0) by (nonlinear_arith)
        requires
            x >= 0,
            r >= 0,
    ;
    lemma_size_of_four();
    lemma_nearest_of_held(four().pattern());
    assert((x * r) * 1 <= magnitude(four().pattern()) * u) by (nonlinear_arith)
        requires
            x * r <= 4 * (u * u),
            magnitude(four().pattern()) == 4 * u,
    ;
    lemma_nearest_keeps_order(x * r, u, magnitude(four().pattern()), 1);
    lemma_rounded_parts(
        c.is_negative() != reciprocal.is_negative(),
        Exact::Ratio { num: x * r, den: u },
    );
}

/// Every vector whose length is a number has a direction that is defined,
/// with components of size at most four. Exactly, a component of a direction
/// is at most one; the roundings on the way can add to it.
pub proof fn lemma_direction_is_bounded(v: Vec2)
    requires
        mag_of(v).is_finite(),
    ensures
        normalized_of(v).is_defined(),
        normalized_of(v).x.pattern() <= four().pattern(),
        normalized_of(v).y.pattern() <= four().pattern(),
{
    lemma_size_of_four();
    if !mag_of(v).is_zero() {
        let squares: Scalar = mag_sq_of(v);
        let px: Scalar = product(v.x, v.x);
        let py: Scalar = product(v.y, v.y);
        lemma_length_is_not_negative(v);
        assert(squares.is_finite()) by {
            reveal(square_root);
        }
        lemma_sum_needs_numbers(px, py);
        lemma_product_sign(v.x, v.x);
        lemma_product_sign(v.y, v.y);
        lemma_sum_grows(px, py);
        if squares.is_zero() {
            assert(squares == zero());
            lemma_root_of_zero();
        }
        lemma_share_of_length(v.x, squares);
        lemma_share_of_length(v.y, squares);
    }
}

/// Softening bounds the force, however close the bodies. Where the size of
/// the force between two bodies is a number, and four times the bound is in
/// range, the force is defined, and each of its components is of size at
/// most four times the bound. Exactly, the factor is one; the roundings on
/// the way to the direction can add to it.
pub proof fn lemma_force_is_bounded(a: Body, b: Body)
    requires
        a.has_mass(),
        b.has_mass(),
        attraction(a, b).is_finite(),
        product(four(), force_bound(a, b)).is_finite(),
    ensures
        pair_force(a, b).is_defined(),
        magnitude(pair_force(a, b).x.pattern()) <= product(
            four(),
            force_bound(a, b),
        ).scaled_value(),
        magnitude(pair_force(a, b).y.pattern()) <= product(
            four(),
            force_bound(a, b),
        ).scaled_value(),
{
    let d: Vec2 = vec_difference(b.position, a.position);
    let size: Scalar = attraction(a, b);
    let bound: Scalar = force_bound(a, b);
    let most: Scalar = product(four(), bound);
    let top: Scalar = product(gravity(), product(a.mass, b.mass));
    lemma_size_of_four();
    lemma_zero_has_no_size(a.mass);
    lemma_zero_has_no_size(b.mass);
    lemma_product_needs_numbers(four(), bound);
    lemma_attraction_is_bounded(a, b);
    lemma_quotient_needs_numbers(top, product(softening(), softening()));
    lemma_product_sign(softening(), softening());
    lemma_quotient_needs_numbers(
        top,
        product(softened_distance(a, b), softened_distance(a, b)),
    );
    lemma_product_needs_numbers(softened_distance(a, b), softened_distance(a, b));
    lemma_sum_needs_numbers(mag_of(d), softening());
    lemma_direction_is_bounded(d);
    let unit: Vec2 = normalized_of(d);
    // the size of the force is at most the bound, in pattern as in number
    lemma_force_bound_is_not_negative(a, b);
    lemma_product_commutes(four(), bound);
    lemma_sizes_compare(size.pattern(), bound.pattern());
    assert(size.pattern() <= bound.pattern());
    lemma_product_grows(size, bound, four());
    lemma_product_grows(unit.x, four(), size);
    lemma_product_grows(unit.y, four(), size);
    lemma_product_sign(four(), bound);
    lemma_sizes_compare(pair_force(a, b).x.pattern(), most.pattern());
    lemma_sizes_compare(pair_force(a, b).y.pattern(), most.pattern());
    lemma_sizes_compare(product(four(), size).pattern(), most.pattern());
}

/// Four times the bounds on the forces between body `index` and the bodies
/// before `limit`, added up in order.
pub open spec fn bound_until(bodies: Seq<Body>, index: int, limit: int) -> Scalar
    decreases limit,
{
    if limit <= 0 {
        zero()
    } else if limit - 1 == index {
        bound_until(bodies, index, limit - 1)
    } else {
        sum(
            bound_until(bodies, index, limit - 1),
            product(four(), force_bound(bodies[index], bodies[limit - 1])),
        )
    }
}

/// Whether the size of the force between body `index` and every other body
/// before `limit` is a number.
pub open spec fn attractions_defined(bodies: Seq<Body>, index: int, limit: int) -> bool {
    forall|other: int|
        0 <= other < limit && other != index ==> (#[trigger] attraction(
            bodies[index],
            bodies[other],
        )).is_finite()
}

/// Softening bounds the force on a body among many. Where every body has
/// mass, the sizes of the forces between one body and the others are
/// numbers, and the sum of four times their bounds is in range, the force on
/// that body is defined, and each of its components is of size at most that
/// sum.
pub proof fn lemma_forces_are_bounded(bodies: Seq<Body>, index: int, limit: int)
    requires
        0 <= index < bodies.len(),
        0 <= limit <= bodies.len(),
        all_massive(bodies),
        attractions_defined(bodies, index, limit),
        bound_until(bodies, index, limit).is_finite(),
    ensures
        not_negative(bound_until(bodies, index, limit)),
        pulled_until(bodies, index, limit).is_defined(),
        magnitude(pulled_until(bodies, index, limit).x.pattern()) <= bound_until(
            bodies,
            index,
            limit,
        ).scaled_value(),
        magnitude(pulled_until(bodies, index, limit).y.pattern()) <= bound_until(
            bodies,
            index,
            limit,
        ).scaled_value(),
    decreases limit,
{
    lemma_magnitude_nonnegative(0);
    if limit > 0 {
        let other: int = limit - 1;
        let most_before: Scalar = bound_until(bodies, index, other);
        if other == index {
            lemma_forces_are_bounded(bodies, index, other);
        } else {
            let me: Body = bodies[index];
            let you: Body = bodies[other];
            let most: Scalar = product(four(), force_bound(me, you));
            lemma_sum_needs_numbers(most_before, most);
            lemma_forces_are_bounded(bodies, index, other);
            let before: Vec2 = pulled_until(bodies, index, other);
            assert(attraction(me, you).is_finite());
            lemma_force_is_bounded(me, you);
            lemma_product_needs_numbers(four(), force_bound(me, you));
            lemma_force_bound_is_not_negative(me, you);
            lemma_size_of_four();
            lemma_product_sign(four(), force_bound(me, you));
            if other < index {
                lemma_attraction_is_mutual(me, you);
                lemma_product_commutes(me.mass, you.mass);
                assert(force_bound(you, me) == force_bound(me, you));
                lemma_force_is_bounded(you, me);
                let force: Vec2 = pair_force(you, me);
                lemma_sum_within(before.x, force.x, most_before, most);
                lemma_sum_within(before.y, force.y, most_before, most);
            } else {
                let force: Vec2 = pair_force(me, you);
                lemma_sum_within(before.x, force.x, most_before, most);
                lemma_sum_within(before.y, force.y, most_before, most);
            }
        }
    }
}

/// The bound on the force between two bodies with mass is not negative.
pub proof fn lemma_force_bound_is_not_negative(a: Body, b: Body)
    requires
        a.has_mass(),
        b.has_mass(),
        force_bound(a, b).is_finite(),
    ensures
        not_negative(force_bound(a, b)),
{
    let top: Scalar = product(gravity(), product(a.mass, b.mass));
    lemma_zero_has_no_size(a.mass);
    lemma_zero_has_no_size(b.mass);
    lemma_quotient_needs_numbers(top, product(softening(), softening()));
    lemma_product_needs_numbers(gravity(), product(a.mass, b.mass));
    lemma_product_sign(a.mass, b.mass);
    lemma_product_sign(gravity(), product(a.mass, b.mass));
    lemma_softening_square();
    lemma_product_sign(softening(), softening());
}

/// A step of no length changes nothing: where the force on a valid body,
/// divided by its mass, is defined, the body has the same position and
/// velocity, as numbers, after a step of length zero.
pub proof fn lemma_step_of_no_length(body: Body, force: Vec2)
    requires
        body.is_valid(),
        vec_divided(force, body.mass).is_defined(),
    ensures
        same_vector(integrated(body, force, zero()).velocity, body.velocity),
        same_vector(integrated(body, force, zero()).position, body.position),
        integrated(body, force, zero()).mass == body.mass,
{
    let change: Vec2 = vec_divided(force, body.mass);
    lemma_product_commutes(change.x, zero());
    lemma_product_commutes(change.y, zero());
    lemma_zero_times(zero(), change.x);
    lemma_zero_times(zero(), change.y);
    lemma_sum_with_zero(product(change.x, zero()), body.velocity.x);
    lemma_sum_with_zero(product(change.y, zero()), body.velocity.y);
    let velocity: Vec2 = integrated(body, force, zero()).velocity;
    lemma_product_commutes(velocity.x, zero());
    lemma_product_commutes(velocity.y, zero());
    lemma_zero_times(zero(), velocity.x);
    lemma_zero_times(zero(), velocity.y);
    lemma_sum_with_zero(product(velocity.x, zero()), body.position.x);
    lemma_sum_with_zero(product(velocity.y, zero()), body.position.y);
}

/// Two bodies whose distance comes out as zero leave each other alone: the
/// force on each is the zero vector, so that each moves on as if it were the
/// only body.
pub proof fn lemma_two_bodies_at_no_distance(bodies: Seq<Body>)
    requires
        bodies.len() == 2,
        bodies[0].has_mass(),
        bodies[1].has_mass(),
        mag_of(vec_difference(bodies[1].position, bodies[0].position)).is_zero(),
        force_bound(bodies[0], bodies[1]).is_finite(),
    ensures
        net_force(bodies, 0) == zero_vector(),
        net_force(bodies, 1) == zero_vector(),
{
    lemma_two_body_forces(bodies);
    lemma_force_at_no_distance(bodies[0], bodies[1]);
    lemma_sum_of_zeros();
    lemma_difference_of_equals(zero());
}

} // verus!
