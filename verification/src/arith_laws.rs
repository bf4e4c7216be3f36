//! What holds of scalar arithmetic: when a result is exact, how results are
//! ordered, and what changing a sign does.

use crate::arith::{difference, negated, one, product, quotient, square_root, sum, zero};
use crate::number::{
    lemma_magnitude_increases, lemma_magnitude_nonnegative, lemma_magnitude_of_parts,
    lemma_sizes_compare, magnitude, signed, Scalar, INFINITE,
};
use crate::rounding::{
    lemma_nearest_exists, lemma_nearest_found, lemma_nearest_keeps_order, lemma_nearest_of_held,
    lemma_nearest_of_zero, nearest, rounded, twice_midpoint, Exact,
};
use vstd::arithmetic::power2::*;
use vstd::prelude::*;

verus! {

/// Whether two scalars stand for the same number, or are both undefined.
pub open spec fn same_number(a: Scalar, b: Scalar) -> bool {
    &&& a.is_finite() == b.is_finite()
    &&& a.is_finite() ==> a.scaled_value() == b.scaled_value()
}

/// Whether two scalars stand for numbers of the same size and opposite sign,
/// or are both undefined.
pub open spec fn opposite_numbers(a: Scalar, b: Scalar) -> bool {
    &&& a.is_finite() == b.is_finite()
    &&& a.is_finite() ==> a.scaled_value() == -b.scaled_value()
}

/// Whether a scalar stands for a number that is not below zero.
pub open spec fn not_negative(a: Scalar) -> bool {
    a.is_finite() && !a.is_negative()
}

/// A scalar built from a sign and a finite pattern has that sign and pattern.
pub proof fn lemma_signed_parts(negative: bool, pattern: int)
    requires
        0 <= pattern < INFINITE,
    ensures
        signed(negative, pattern).is_finite(),
        signed(negative, pattern).pattern() == pattern,
        signed(negative, pattern).is_negative() == negative,
        signed(negative, pattern).scaled_value() == if negative {
            -magnitude(pattern)
        } else {
            magnitude(pattern)
        },
{
}

/// A rounded result is defined exactly where the nearest pattern is finite,
/// and then has that pattern and the sign it was given.
pub proof fn lemma_rounded_parts(negative: bool, x: Exact)
    requires
        x.well_formed(),
    ensures
        0 <= nearest(x) <= INFINITE,
        rounded(negative, x).is_finite() <==> nearest(x) < INFINITE,
        rounded(negative, x).is_finite() ==> rounded(negative, x).pattern() == nearest(x)
            && rounded(negative, x).is_negative() == negative,
{
    lemma_nearest_exists(x);
    if nearest(x) < INFINITE {
        lemma_signed_parts(negative, nearest(x));
    }
}

/// Only the two zeros stand for the number zero.
pub proof fn lemma_zero_has_no_size(a: Scalar)
    requires
        a.is_finite(),
    ensures
        a.is_zero() <==> a.scaled_value() == 0,
{
    lemma_magnitude_nonnegative(a.pattern());
    if a.pattern() > 0 {
        lemma_magnitude_increases(0, a.pattern());
    }
}

/// Of two numbers that are not negative, the one with the larger pattern is
/// the larger number.
pub proof fn lemma_pattern_order_is_number_order(small: Scalar, large: Scalar)
    requires
        not_negative(small),
        not_negative(large),
        small.pattern() <= large.pattern(),
    ensures
        0 <= small.scaled_value() <= large.scaled_value(),
{
    lemma_magnitude_nonnegative(small.pattern());
    if small.pattern() < large.pattern() {
        lemma_magnitude_increases(small.pattern(), large.pattern());
    }
}

/// Negation keeps the size and flips the sign; it leaves undefined undefined.
pub proof fn lemma_negated_is_opposite(a: Scalar)
    ensures
        opposite_numbers(negated(a), a),
        a.is_finite() ==> negated(a).is_negative() != a.is_negative(),
{
    if a.is_finite() {
        lemma_signed_parts(!a.is_negative(), a.pattern());
    }
}

/// A sum is defined only where both terms are.
pub proof fn lemma_sum_needs_numbers(a: Scalar, b: Scalar)
    requires
        sum(a, b).is_finite(),
    ensures
        a.is_finite(),
        b.is_finite(),
{
    reveal(sum);
}

/// The order of the terms does not change a sum.
pub proof fn lemma_sum_commutes(a: Scalar, b: Scalar)
    ensures
        sum(a, b) == sum(b, a),
{
    reveal(sum);
}

/// Adding a zero to a number gives that number.
pub proof fn lemma_sum_with_zero(z: Scalar, a: Scalar)
    requires
        z.is_finite(),
        z.is_zero(),
    ensures
        same_number(sum(z, a), a),
        same_number(sum(a, z), a),
{
    reveal(sum);
    lemma_magnitude_nonnegative(0);
    if a.is_finite() {
        let k: int = a.pattern();
        lemma_magnitude_nonnegative(k);
        lemma_signed_parts(a.is_negative() && z.is_negative(), 0);
        lemma_signed_parts(z.is_negative() && a.is_negative(), 0);
        if a.scaled_value() != 0 {
            lemma_nearest_of_held(k);
            lemma_signed_parts(a.is_negative(), k);
        }
    }
}

/// Zero plus zero is zero.
pub proof fn lemma_sum_of_zeros()
    ensures
        sum(zero(), zero()) == zero(),
{
    reveal(sum);
    lemma_magnitude_nonnegative(0);
}

/// A number and its opposite add up to zero.
pub proof fn lemma_opposites_cancel(a: Scalar, b: Scalar)
    requires
        opposite_numbers(a, b),
        a.is_finite(),
    ensures
        sum(a, b).is_finite(),
        sum(a, b).scaled_value() == 0,
{
    reveal(sum);
    lemma_magnitude_nonnegative(0);
    lemma_signed_parts(a.is_negative() && b.is_negative(), 0);
}

/// Where each term is replaced by its opposite, the sum is replaced by its
/// opposite.
pub proof fn lemma_sum_of_opposites(a: Scalar, b: Scalar, c: Scalar, d: Scalar)
    requires
        opposite_numbers(a, c),
        opposite_numbers(b, d),
    ensures
        opposite_numbers(sum(a, b), sum(c, d)),
{
    reveal(sum);
    if a.is_finite() && b.is_finite() {
        let total: int = a.scaled_value() + b.scaled_value();
        lemma_magnitude_nonnegative(0);
        lemma_signed_parts(a.is_negative() && b.is_negative(), 0);
        lemma_signed_parts(c.is_negative() && d.is_negative(), 0);
        if total != 0 {
            let size: int = if total < 0 {
                -total
            } else {
                total
            };
            let x: Exact = Exact::Ratio { num: size, den: 1 };
            lemma_rounded_parts(true, x);
            lemma_rounded_parts(false, x);
        }
    }
}

/// A difference taken the other way round is the opposite number.
pub proof fn lemma_difference_reversed(a: Scalar, b: Scalar)
    ensures
        opposite_numbers(difference(a, b), difference(b, a)),
{
    lemma_negated_is_opposite(a);
    lemma_negated_is_opposite(b);
    lemma_sum_of_opposites(a, negated(b), negated(a), b);
    lemma_sum_commutes(negated(a), b);
}

/// A number minus itself is zero, with the positive sign.
pub proof fn lemma_difference_of_equals(a: Scalar)
    requires
        a.is_finite(),
    ensures
        difference(a, a) == zero(),
{
    reveal(sum);
    lemma_negated_is_opposite(a);
}

/// The sum of two numbers that are not negative is not negative, and not
/// smaller than either.
pub proof fn lemma_sum_grows(a: Scalar, b: Scalar)
    requires
        not_negative(a),
        not_negative(b),
        sum(a, b).is_finite(),
    ensures
        not_negative(sum(a, b)),
        sum(a, b).pattern() >= a.pattern(),
        sum(a, b).pattern() >= b.pattern(),
{
    reveal(sum);
    let ma: int = magnitude(a.pattern());
    let mb: int = magnitude(b.pattern());
    lemma_magnitude_nonnegative(a.pattern());
    lemma_magnitude_nonnegative(b.pattern());
    if ma + mb == 0 {
        lemma_signed_parts(false, 0);
        lemma_zero_has_no_size(a);
        lemma_zero_has_no_size(b);
    } else {
        let x: Exact = Exact::Ratio { num: ma + mb, den: 1 };
        lemma_rounded_parts(false, x);
        lemma_nearest_of_held(a.pattern());
        lemma_nearest_of_held(b.pattern());
        lemma_nearest_keeps_order(ma, 1, ma + mb, 1);
        lemma_nearest_keeps_order(mb, 1, ma + mb, 1);
    }
}

/// The order of the factors does not change a product.
pub proof fn lemma_product_commutes(a: Scalar, b: Scalar)
    ensures
        product(a, b) == product(b, a),
{
    reveal(product);
    assert(magnitude(a.pattern()) * magnitude(b.pattern()) == magnitude(b.pattern()) * magnitude(
        a.pattern(),
    )) by (nonlinear_arith);
}

/// A product is defined only where both factors are.
pub proof fn lemma_product_needs_numbers(a: Scalar, b: Scalar)
    requires
        product(a, b).is_finite(),
    ensures
        a.is_finite(),
        b.is_finite(),
{
    reveal(product);
}

/// The product of two numbers that are not negative is not negative.
pub proof fn lemma_product_sign(a: Scalar, b: Scalar)
    requires
        a.is_finite(),
        b.is_finite(),
        product(a, b).is_finite(),
    ensures
        product(a, b).is_negative() == (a.is_negative() != b.is_negative()),
{
    reveal(product);
    lemma_magnitude_nonnegative(a.pattern());
    lemma_magnitude_nonnegative(b.pattern());
    lemma_pow2_pos(1074);
    let ma: int = magnitude(a.pattern());
    let mb: int = magnitude(b.pattern());
    assert(ma * mb >= 0) by (nonlinear_arith)
        requires
            ma >= 0,
            mb >= 0,
    ;
    lemma_rounded_parts(
        a.is_negative() != b.is_negative(),
        Exact::Ratio { num: ma * mb, den: pow2(1074) as int },
    );
}

/// Zero times a number is zero.
pub proof fn lemma_zero_times(z: Scalar, a: Scalar)
    requires
        z.is_finite(),
        z.is_zero(),
        a.is_finite(),
    ensures
        product(z, a).is_finite(),
        product(z, a).is_zero(),
{
    reveal(product);
    lemma_magnitude_nonnegative(0);
    lemma_pow2_pos(1074);
    let x: Exact = Exact::Ratio {
        num: magnitude(z.pattern()) * magnitude(a.pattern()),
        den: pow2(1074) as int,
    };
    assert(magnitude(z.pattern()) * magnitude(a.pattern()) == 0) by (nonlinear_arith)
        requires
            magnitude(z.pattern()) == 0,
    ;
    lemma_nearest_of_zero(x);
    lemma_signed_parts(z.is_negative() != a.is_negative(), 0);
}

/// Where one factor is replaced by its opposite, the product is replaced by
/// its opposite.
pub proof fn lemma_product_of_opposite(a: Scalar, c: Scalar, b: Scalar)
    requires
        opposite_numbers(a, c),
    ensures
        opposite_numbers(product(a, b), product(c, b)),
        opposite_numbers(product(b, a), product(b, c)),
{
    reveal(product);
    lemma_product_commutes(b, a);
    lemma_product_commutes(b, c);
    if a.is_finite() && b.is_finite() {
        let ma: int = magnitude(a.pattern());
        let mc: int = magnitude(c.pattern());
        let mb: int = magnitude(b.pattern());
        lemma_magnitude_nonnegative(a.pattern());
        lemma_magnitude_nonnegative(c.pattern());
        lemma_magnitude_nonnegative(b.pattern());
        lemma_pow2_pos(1074);
        assert(ma == mc);
        assert(ma * mb >= 0) by (nonlinear_arith)
            requires
                ma >= 0,
                mb >= 0,
        ;
        let x: Exact = Exact::Ratio { num: ma * mb, den: pow2(1074) as int };
        lemma_rounded_parts(a.is_negative() != b.is_negative(), x);
        lemma_rounded_parts(c.is_negative() != b.is_negative(), x);
        if ma == 0 {
            assert(ma * mb == 0) by (nonlinear_arith)
                requires
                    ma == 0,
            ;
            lemma_nearest_of_zero(x);
            lemma_magnitude_nonnegative(0);
        }
    }
}

/// Opposite numbers have the same square.
pub proof fn lemma_square_of_opposite(a: Scalar, c: Scalar)
    requires
        opposite_numbers(a, c),
    ensures
        product(a, a) == product(c, c),
{
    reveal(product);
    lemma_magnitude_nonnegative(a.pattern());
    lemma_magnitude_nonnegative(c.pattern());
}

/// Of two numbers that are not negative, the larger has the larger square.
pub proof fn lemma_square_grows(small: Scalar, large: Scalar)
    requires
        not_negative(small),
        not_negative(large),
        small.pattern() <= large.pattern(),
        product(large, large).is_finite(),
    ensures
        not_negative(product(small, small)),
        not_negative(product(large, large)),
        product(small, small).pattern() <= product(large, large).pattern(),
{
    reveal(product);
    let ms: int = magnitude(small.pattern());
    let ml: int = magnitude(large.pattern());
    let unit: int = pow2(1074) as int;
    lemma_pow2_pos(1074);
    lemma_magnitude_nonnegative(small.pattern());
    lemma_magnitude_nonnegative(large.pattern());
    if small.pattern() < large.pattern() {
        lemma_magnitude_increases(small.pattern(), large.pattern());
    }
    assert(0 <= ms * ms <= ml * ml) by (nonlinear_arith)
        requires
            0 <= ms <= ml,
    ;
    assert((ms * ms) * unit <= (ml * ml) * unit) by (nonlinear_arith)
        requires
            ms * ms <= ml * ml,
            unit > 0,
    ;
    lemma_rounded_parts(false, Exact::Ratio { num: ms * ms, den: unit });
    lemma_rounded_parts(false, Exact::Ratio { num: ml * ml, den: unit });
    lemma_nearest_keeps_order(ms * ms, unit, ml * ml, unit);
}

/// A quotient is defined only where both numbers are and the divisor is not
/// zero; its sign is negative exactly where the signs of the two differ.
pub proof fn lemma_quotient_needs_numbers(a: Scalar, b: Scalar)
    requires
        quotient(a, b).is_finite(),
    ensures
        a.is_finite(),
        b.is_finite(),
        !b.is_zero(),
        quotient(a, b).is_negative() == (a.is_negative() != b.is_negative()),
{
    reveal(quotient);
    lemma_magnitude_nonnegative(a.pattern());
    lemma_magnitude_nonnegative(0);
    lemma_magnitude_increases(0, b.pattern());
    lemma_pow2_pos(1074);
    let num: int = magnitude(a.pattern()) * pow2(1074);
    assert(num >= 0) by (nonlinear_arith)
        requires
            num == magnitude(a.pattern()) * pow2(1074),
            magnitude(a.pattern()) >= 0,
            pow2(1074) > 0,
    ;
    lemma_rounded_parts(
        a.is_negative() != b.is_negative(),
        Exact::Ratio { num, den: magnitude(b.pattern()) },
    );
}

/// Zero divided by a number that is not zero is zero.
pub proof fn lemma_zero_divided(z: Scalar, a: Scalar)
    requires
        z.is_finite(),
        z.is_zero(),
        a.is_finite(),
        !a.is_zero(),
    ensures
        quotient(z, a).is_finite(),
        quotient(z, a).is_zero(),
{
    reveal(quotient);
    lemma_magnitude_nonnegative(0);
    lemma_magnitude_increases(0, a.pattern());
    let x: Exact = Exact::Ratio {
        num: magnitude(z.pattern()) * pow2(1074),
        den: magnitude(a.pattern()),
    };
    assert(magnitude(z.pattern()) * pow2(1074) == 0) by (nonlinear_arith)
        requires
            magnitude(z.pattern()) == 0,
    ;
    lemma_nearest_of_zero(x);
    lemma_signed_parts(z.is_negative() != a.is_negative(), 0);
}

/// A number that is not negative, divided by the larger of two numbers above
/// zero, gives the smaller quotient.
pub proof fn lemma_quotient_shrinks(a: Scalar, small: Scalar, large: Scalar)
    requires
        not_negative(a),
        not_negative(small),
        not_negative(large),
        0 < small.pattern() <= large.pattern(),
        quotient(a, small).is_finite(),
    ensures
        not_negative(quotient(a, large)),
        not_negative(quotient(a, small)),
        quotient(a, large).pattern() <= quotient(a, small).pattern(),
{
    reveal(quotient);
    let ma: int = magnitude(a.pattern());
    let ms: int = magnitude(small.pattern());
    let ml: int = magnitude(large.pattern());
    let unit: int = pow2(1074) as int;
    lemma_pow2_pos(1074);
    lemma_magnitude_nonnegative(a.pattern());
    lemma_magnitude_increases(0, small.pattern());
    lemma_magnitude_nonnegative(0);
    if small.pattern() < large.pattern() {
        lemma_magnitude_increases(small.pattern(), large.pattern());
    }
    let num: int = ma * unit;
    assert(num >= 0) by (nonlinear_arith)
        requires
            num == ma * unit,
            ma >= 0,
            unit > 0,
    ;
    assert(num * ms <= num * ml) by (nonlinear_arith)
        requires
            num >= 0,
            ms <= ml,
    ;
    lemma_rounded_parts(false, Exact::Ratio { num, den: ml });
    lemma_rounded_parts(false, Exact::Ratio { num, den: ms });
    lemma_nearest_keeps_order(num, ml, num, ms);
}

/// The square root of zero is zero.
pub proof fn lemma_root_of_zero()
    ensures
        square_root(zero()) == zero(),
{
    reveal(square_root);
    lemma_magnitude_nonnegative(0);
    assert(magnitude(0) * pow2(1074) == 0) by (nonlinear_arith)
        requires
            magnitude(0) == 0,
    ;
    lemma_nearest_of_zero(Exact::Root { radicand: magnitude(0) * pow2(1074) });
}

/// A quotient that equals the number of a pattern is nearest to that
/// pattern.
pub proof fn lemma_nearest_of_exact_ratio(num: int, den: int, pattern: int)
    requires
        den > 0,
        0 <= pattern < INFINITE,
        num == magnitude(pattern) * den,
    ensures
        nearest(Exact::Ratio { num, den }) == pattern,
{
    lemma_magnitude_nonnegative(pattern);
    let size: int = magnitude(pattern);
    assert(num >= 0) by (nonlinear_arith)
        requires
            num == size * den,
            size >= 0,
            den > 0,
    ;
    lemma_nearest_of_held(pattern);
    assert(size * den == num * 1);
    lemma_nearest_keeps_order(size, 1, num, den);
    lemma_nearest_keeps_order(num, den, size, 1);
}

/// A square root that equals the number of a pattern is nearest to that
/// pattern.
pub proof fn lemma_nearest_of_exact_root(radicand: int, pattern: int)
    requires
        0 <= pattern < INFINITE,
        radicand == magnitude(pattern) * magnitude(pattern),
    ensures
        nearest(Exact::Root { radicand }) == pattern,
{
    let x: Exact = Exact::Root { radicand };
    let size: int = magnitude(pattern);
    lemma_magnitude_nonnegative(pattern);
    lemma_magnitude_increases(pattern, pattern + 1);
    assert(radicand >= 0) by (nonlinear_arith)
        requires
            radicand == size * size,
    ;
    let above: int = twice_midpoint(pattern);
    assert(4 * radicand < above * above) by (nonlinear_arith)
        requires
            radicand == size * size,
            0 <= 2 * size < above,
    ;
    if pattern > 0 {
        lemma_magnitude_increases(pattern - 1, pattern);
        lemma_magnitude_nonnegative(pattern - 1);
        let below: int = twice_midpoint(pattern - 1);
        assert(4 * radicand > below * below) by (nonlinear_arith)
            requires
                radicand == size * size,
                0 <= below < 2 * size,
        ;
    }
    lemma_nearest_found(x, pattern);
}

/// A sum that the format can hold is returned as it is.
pub proof fn lemma_sum_is_exact(a: Scalar, b: Scalar, r: Scalar)
    requires
        a.is_finite(),
        b.is_finite(),
        r.is_finite(),
        r.scaled_value() == a.scaled_value() + b.scaled_value(),
    ensures
        same_number(sum(a, b), r),
        !r.is_zero() ==> sum(a, b) == r,
{
    reveal(sum);
    lemma_magnitude_nonnegative(0);
    lemma_magnitude_nonnegative(r.pattern());
    lemma_zero_has_no_size(r);
    lemma_signed_parts(a.is_negative() && b.is_negative(), 0);
    if r.scaled_value() != 0 {
        lemma_nearest_of_held(r.pattern());
        lemma_signed_parts(r.is_negative(), r.pattern());
    }
}

/// A product that the format can hold is returned as it is.
pub proof fn lemma_product_is_exact(a: Scalar, b: Scalar, r: Scalar)
    requires
        a.is_finite(),
        b.is_finite(),
        r.is_finite(),
        r.scaled_value() * pow2(1074) == a.scaled_value() * b.scaled_value(),
    ensures
        same_number(product(a, b), r),
        !r.is_zero() ==> product(a, b) == r,
{
    reveal(product);
    let ma: int = magnitude(a.pattern());
    let mb: int = magnitude(b.pattern());
    let mr: int = magnitude(r.pattern());
    let unit: int = pow2(1074) as int;
    lemma_pow2_pos(1074);
    lemma_magnitude_nonnegative(a.pattern());
    lemma_magnitude_nonnegative(b.pattern());
    lemma_magnitude_nonnegative(r.pattern());
    lemma_zero_has_no_size(r);
    let va: int = a.scaled_value();
    let vb: int = b.scaled_value();
    let vr: int = r.scaled_value();
    assert(mr * unit == ma * mb && (vr != 0 ==> va != 0 && vb != 0 && (vr < 0 <==> (va < 0) != (vb
        < 0)))) by (nonlinear_arith)
        requires
            vr * unit == va * vb,
            unit > 0,
            ma >= 0,
            mb >= 0,
            mr >= 0,
            va == ma || va == -ma,
            vb == mb || vb == -mb,
            vr == mr || vr == -mr,
    ;
    lemma_nearest_of_exact_ratio(ma * mb, unit, r.pattern());
    lemma_signed_parts(a.is_negative() != b.is_negative(), r.pattern());
    lemma_signed_parts(r.is_negative(), r.pattern());
}

/// A quotient that the format can hold is returned as it is.
pub proof fn lemma_quotient_is_exact(a: Scalar, b: Scalar, r: Scalar)
    requires
        a.is_finite(),
        b.is_finite(),
        !b.is_zero(),
        r.is_finite(),
        r.scaled_value() * b.scaled_value() == a.scaled_value() * pow2(1074),
    ensures
        same_number(quotient(a, b), r),
        !r.is_zero() ==> quotient(a, b) == r,
{
    reveal(quotient);
    let ma: int = magnitude(a.pattern());
    let mb: int = magnitude(b.pattern());
    let mr: int = magnitude(r.pattern());
    let unit: int = pow2(1074) as int;
    lemma_pow2_pos(1074);
    lemma_magnitude_nonnegative(a.pattern());
    lemma_magnitude_increases(0, b.pattern());
    lemma_magnitude_nonnegative(0);
    lemma_magnitude_nonnegative(r.pattern());
    lemma_zero_has_no_size(r);
    let va: int = a.scaled_value();
    let vb: int = b.scaled_value();
    let vr: int = r.scaled_value();
    assert(mr * mb == ma * unit && (vr != 0 ==> va != 0 && (vr < 0 <==> (va < 0) != (vb < 0))))
        by (nonlinear_arith)
        requires
            vr * vb == va * unit,
            unit > 0,
            ma >= 0,
            mb > 0,
            mr >= 0,
            va == ma || va == -ma,
            vb == mb || vb == -mb,
            vr == mr || vr == -mr,
    ;
    lemma_nearest_of_exact_ratio(ma * unit, mb, r.pattern());
    lemma_signed_parts(a.is_negative() != b.is_negative(), r.pattern());
    lemma_signed_parts(r.is_negative(), r.pattern());
}

/// A square root that the format can hold is returned as it is.
pub proof fn lemma_root_is_exact(a: Scalar, r: Scalar)
    requires
        a.is_finite(),
        !a.is_negative(),
        r.is_finite(),
        !r.is_negative(),
        r.scaled_value() * r.scaled_value() == a.scaled_value() * pow2(1074),
    ensures
        square_root(a) == r,
{
    reveal(square_root);
    lemma_nearest_of_exact_root(magnitude(a.pattern()) * pow2(1074), r.pattern());
    lemma_signed_parts(false, r.pattern());
}

/// The scalar one stands for the number one: 2^1074 units.
pub proof fn lemma_size_of_one()
    ensures
        one().is_finite(),
        !one().is_negative(),
        magnitude(one().pattern()) == pow2(1074),
{
    let h: int = 0x10_0000_0000_0000;
    assert(one().pattern() == 1022 * h + h);
    lemma_magnitude_of_parts(1022, h);
    lemma2_to64_rest();
    lemma_pow2_adds(52, 1022);
}

/// A product does not shrink where a factor grows in size.
pub proof fn lemma_product_grows(small: Scalar, large: Scalar, b: Scalar)
    requires
        small.is_finite(),
        large.is_finite(),
        small.pattern() <= large.pattern(),
        product(large, b).is_finite(),
    ensures
        product(small, b).is_finite(),
        product(small, b).pattern() <= product(large, b).pattern(),
        product(b, small).is_finite(),
        product(b, small).pattern() <= product(b, large).pattern(),
{
    reveal(product);
    lemma_product_commutes(b, small);
    lemma_product_commutes(b, large);
    let ms: int = magnitude(small.pattern());
    let ml: int = magnitude(large.pattern());
    let mb: int = magnitude(b.pattern());
    let unit: int = pow2(1074) as int;
    lemma_pow2_pos(1074);
    lemma_magnitude_nonnegative(small.pattern());
    lemma_magnitude_nonnegative(b.pattern());
    lemma_sizes_compare(small.pattern(), large.pattern());
    assert(0 <= ms * mb <= ml * mb) by (nonlinear_arith)
        requires
            0 <= ms <= ml,
            mb >= 0,
    ;
    assert((ms * mb) * unit <= (ml * mb) * unit) by (nonlinear_arith)
        requires
            ms * mb <= ml * mb,
            unit > 0,
    ;
    lemma_rounded_parts(small.is_negative() != b.is_negative(), Exact::Ratio { num: ms * mb, den: unit });
    lemma_rounded_parts(large.is_negative() != b.is_negative(), Exact::Ratio { num: ml * mb, den: unit });
    lemma_nearest_keeps_order(ms * mb, unit, ml * mb, unit);
}

/// A sum is within the sum of what its terms are within: where the size of
/// each term is at most a number that is not negative, the size of the sum,
/// or of the difference, is at most the sum of those numbers.
pub proof fn lemma_sum_within(a: Scalar, b: Scalar, most_a: Scalar, most_b: Scalar)
    requires
        a.is_finite(),
        b.is_finite(),
        not_negative(most_a),
        not_negative(most_b),
        magnitude(a.pattern()) <= most_a.scaled_value(),
        magnitude(b.pattern()) <= most_b.scaled_value(),
        sum(most_a, most_b).is_finite(),
    ensures
        not_negative(sum(most_a, most_b)),
        sum(a, b).is_finite(),
        magnitude(sum(a, b).pattern()) <= sum(most_a, most_b).scaled_value(),
        difference(a, b).is_finite(),
        magnitude(difference(a, b).pattern()) <= sum(most_a, most_b).scaled_value(),
{
    lemma_sum_grows(most_a, most_b);
    lemma_negated_is_opposite(b);
    lemma_signed_parts(!b.is_negative(), b.pattern());
    lemma_term_within(a, b, most_a, most_b);
    lemma_term_within(a, negated(b), most_a, most_b);
}

proof fn lemma_term_within(a: Scalar, b: Scalar, most_a: Scalar, most_b: Scalar)
    requires
        a.is_finite(),
        b.is_finite(),
        not_negative(most_a),
        not_negative(most_b),
        magnitude(a.pattern()) <= most_a.scaled_value(),
        magnitude(b.pattern()) <= most_b.scaled_value(),
        sum(most_a, most_b).is_finite(),
        not_negative(sum(most_a, most_b)),
    ensures
        sum(a, b).is_finite(),
        magnitude(sum(a, b).pattern()) <= sum(most_a, most_b).scaled_value(),
{
    reveal(sum);
    let total: int = a.scaled_value() + b.scaled_value();
    let most: int = most_a.scaled_value() + most_b.scaled_value();
    lemma_magnitude_nonnegative(a.pattern());
    lemma_magnitude_nonnegative(b.pattern());
    lemma_magnitude_nonnegative(0);
    lemma_signed_parts(a.is_negative() && b.is_negative(), 0);
    lemma_signed_parts(false, 0);
    lemma_magnitude_nonnegative(sum(most_a, most_b).pattern());
    if total != 0 {
        let size: int = if total < 0 {
            -total
        } else {
            total
        };
        assert(0 < size <= most);
        lemma_rounded_parts(total < 0, Exact::Ratio { num: size, den: 1 });
        lemma_rounded_parts(false, Exact::Ratio { num: most, den: 1 });
        lemma_nearest_keeps_order(size, 1, most, 1);
        lemma_sizes_compare(sum(a, b).pattern(), sum(most_a, most_b).pattern());
    }
}

} // verus!
