//! Double-precision numbers, held by their bit patterns.
//!
//! A `Scalar` is a 64-bit pattern in the binary64 interchange format: one sign
//! bit, eleven exponent bits and fifty-two fraction bits. The finite patterns
//! stand for the integer multiples of 2^-1074 that the format can hold; every
//! other pattern is treated alike, as "undefined".
//!
//! Contracts speak of a finite scalar through `scaled_value`: the number it
//! stands for, multiplied by 2^1074, which is always an integer.

use vstd::arithmetic::power2::*;
use vstd::prelude::*;

verus! {

/// The sign bit of a pattern.
pub const SIGN_BIT: u64 = 0x8000_0000_0000_0000;

/// The lowest exponent bit of a pattern: two to the power 52.
pub const HIDDEN_BIT: u64 = 0x0010_0000_0000_0000;

/// The first pattern, sign apart, that stands for no finite number.
pub const INFINITE: u64 = 0x7FF0_0000_0000_0000;

/// The pattern that every operation returns for a result that is undefined.
pub const UNDEFINED_BITS: u64 = 0x7FF8_0000_0000_0000;

/// A double-precision number, or "undefined".
#[derive(Clone, Copy, Debug, PartialEq, Eq, Structural)]
pub struct Scalar {
    pub bits: u64,
}

/// The significand of a pattern without its sign: the fraction bits, with the
/// hidden bit in front where the exponent bits are not all zero.
pub open spec fn significand(pattern: int) -> int {
    if pattern / (HIDDEN_BIT as int) <= 0 {
        pattern % (HIDDEN_BIT as int)
    } else {
        HIDDEN_BIT + pattern % (HIDDEN_BIT as int)
    }
}

/// The power of two, counted in units of 2^-1074, that the lowest bit of the
/// significand is worth.
pub open spec fn unit_exponent(pattern: int) -> nat {
    if pattern / (HIDDEN_BIT as int) <= 0 {
        0
    } else {
        (pattern / (HIDDEN_BIT as int) - 1) as nat
    }
}

/// The size of the number that a pattern without its sign stands for, in units
/// of 2^-1074. It is also defined on `INFINITE`, where it is 2^1024 in those
/// units: the first power of two that is too large for the format.
pub open spec fn magnitude(pattern: int) -> int {
    significand(pattern) * pow2(unit_exponent(pattern))
}

impl Scalar {
    /// The pattern without its sign bit.
    pub open spec fn pattern(self) -> int {
        (self.bits % SIGN_BIT) as int
    }

    /// Whether the sign bit is set.
    pub open spec fn is_negative(self) -> bool {
        self.bits >= SIGN_BIT
    }

    /// Whether this stands for a number. Every other scalar is undefined.
    pub open spec fn is_finite(self) -> bool {
        self.pattern() < INFINITE
    }

    /// The number this stands for, in units of 2^-1074.
    pub open spec fn scaled_value(self) -> int
        recommends
            self.is_finite(),
    {
        if self.is_negative() {
            -magnitude(self.pattern())
        } else {
            magnitude(self.pattern())
        }
    }

    /// Whether this stands for zero, of either sign.
    pub open spec fn is_zero(self) -> bool {
        self.pattern() == 0
    }
}

/// The scalar with the given sign and pattern.
pub open spec fn signed(negative: bool, pattern: int) -> Scalar
    recommends
        0 <= pattern < SIGN_BIT,
{
    Scalar {
        bits: if negative {
            (SIGN_BIT + pattern) as u64
        } else {
            pattern as u64
        },
    }
}

/// A pattern built from a unit exponent and a significand has that
/// significand and that exponent. The significand may be one past the largest
/// that fits: the pattern is then the first of the next exponent.
pub proof fn lemma_magnitude_of_parts(exponent: nat, digits: int)
    requires
        0 <= digits <= 2 * HIDDEN_BIT,
        exponent > 0 ==> digits >= HIDDEN_BIT,
    ensures
        magnitude(exponent * HIDDEN_BIT + digits) == digits * pow2(exponent),
{
    let h: int = HIDDEN_BIT as int;
    let e: int = exponent as int;
    let k: int = e * h + digits;
    if digits < h {
        assert(e == 0);
        assert(k == digits);
        assert(k / h == 0);
        assert(k % h == digits);
        lemma2_to64();
    } else if digits < 2 * h {
        let f: int = digits - h;
        assert(k == (e + 1) * h + f) by (nonlinear_arith)
            requires
                k == e * h + digits,
                f == digits - h,
        ;
        vstd::arithmetic::div_mod::lemma_fundamental_div_mod_converse(k, h, e + 1, f);
        assert(k / h == e + 1);
        assert(k % h == f);
    } else {
        assert(digits == 2 * h);
        assert(k == (e + 2) * h) by (nonlinear_arith)
            requires
                k == e * h + digits,
                digits == 2 * h,
        ;
        vstd::arithmetic::div_mod::lemma_fundamental_div_mod_converse(k, h, e + 2, 0);
        assert(k / h == e + 2);
        assert(k % h == 0);
        lemma_pow2_unfold(exponent + 1);
        assert(h * pow2(exponent + 1) == (2 * h) * pow2(exponent)) by (nonlinear_arith)
            requires
                pow2(exponent + 1) == 2 * pow2(exponent),
        ;
    }
}

/// Every pattern is built from its own exponent and significand.
pub proof fn lemma_parts_of_pattern(pattern: int)
    requires
        pattern >= 0,
    ensures
        pattern == unit_exponent(pattern) * HIDDEN_BIT + significand(pattern),
        0 <= significand(pattern) < 2 * HIDDEN_BIT,
        unit_exponent(pattern) > 0 ==> significand(pattern) >= HIDDEN_BIT,
        unit_exponent(pattern) <= pattern / (HIDDEN_BIT as int),
{
    let h: int = HIDDEN_BIT as int;
    vstd::arithmetic::div_mod::lemma_fundamental_div_mod(pattern, h);
    let e: int = pattern / h;
    let f: int = pattern % h;
    assert(pattern == h * e + f);
    if e == 0 {
        assert(h * e == 0);
    } else {
        assert(h * e + f == (e - 1) * h + (h + f)) by (nonlinear_arith);
    }
}

/// No pattern stands for a negative size, and pattern zero stands for zero.
pub proof fn lemma_magnitude_nonnegative(pattern: int)
    requires
        pattern >= 0,
    ensures
        magnitude(pattern) >= 0,
        magnitude(0) == 0,
{
    lemma_parts_of_pattern(pattern);
    lemma_pow2_pos(unit_exponent(pattern));
    let s: int = significand(pattern);
    let p: int = pow2(unit_exponent(pattern)) as int;
    assert(s * p >= 0) by (nonlinear_arith)
        requires
            s >= 0,
            p > 0,
    ;
    assert(significand(0) == 0);
    assert(0 * pow2(unit_exponent(0)) == 0) by (nonlinear_arith);
}

/// The next pattern stands for a number that is larger by one unit in the
/// last place.
pub proof fn lemma_magnitude_step(pattern: int)
    requires
        pattern >= 0,
    ensures
        magnitude(pattern + 1) == magnitude(pattern) + pow2(unit_exponent(pattern)),
{
    let h: int = HIDDEN_BIT as int;
    let e: nat = unit_exponent(pattern);
    let s: int = significand(pattern);
    lemma_parts_of_pattern(pattern);
    lemma_magnitude_of_parts(e, s + 1);
    assert(pattern + 1 == e * h + (s + 1));
    assert((s + 1) * pow2(e) == s * pow2(e) + pow2(e)) by (nonlinear_arith);
}

/// A larger pattern stands for a larger number.
pub proof fn lemma_magnitude_increases(low: int, high: int)
    requires
        0 <= low < high,
    ensures
        magnitude(low) < magnitude(high),
    decreases high - low,
{
    lemma_magnitude_step(low);
    lemma_pow2_pos(unit_exponent(low));
    if low + 1 < high {
        lemma_magnitude_increases(low + 1, high);
    }
}

/// The sizes of two patterns compare as the patterns do, and only pattern
/// zero has size zero.
pub proof fn lemma_sizes_compare(first: int, second: int)
    requires
        first >= 0,
        second >= 0,
    ensures
        magnitude(0) == 0,
        first > 0 ==> magnitude(first) > 0,
        second > 0 ==> magnitude(second) > 0,
        first < second ==> magnitude(first) < magnitude(second),
        first == second ==> magnitude(first) == magnitude(second),
        first > second ==> magnitude(first) > magnitude(second),
{
    lemma_magnitude_nonnegative(0);
    if first < second {
        lemma_magnitude_increases(first, second);
    }
    if second < first {
        lemma_magnitude_increases(second, first);
    }
    if first > 0 {
        lemma_magnitude_increases(0, first);
    }
    if second > 0 {
        lemma_magnitude_increases(0, second);
    }
}

/// From one pattern to the next the size at most doubles; the first pattern
/// after zero has size one.
pub proof fn lemma_next_size(pattern: int)
    requires
        pattern >= 0,
    ensures
        magnitude(pattern + 1) <= 2 * magnitude(pattern) + 1,
        pattern >= 1 ==> magnitude(pattern + 1) <= 2 * magnitude(pattern),
        pattern >= 1 ==> magnitude(pattern) >= 1,
        magnitude(1) == 1,
{
    lemma_magnitude_step(pattern);
    lemma_parts_of_pattern(pattern);
    lemma_magnitude_nonnegative(pattern);
    let e: nat = unit_exponent(pattern);
    let s: int = significand(pattern);
    lemma_pow2_pos(e);
    if pattern >= 1 {
        assert(s >= 1) by {
            if e == 0 {
                assert(pattern == 0 * HIDDEN_BIT + s);
            }
        }
        assert(s * pow2(e) >= pow2(e)) by (nonlinear_arith)
            requires
                s >= 1,
                pow2(e) > 0,
        ;
    } else {
        lemma2_to64();
    }
    lemma_magnitude_step(0);
    lemma_magnitude_nonnegative(0);
    assert(unit_exponent(0) == 0);
    lemma2_to64();
}

} // verus!
