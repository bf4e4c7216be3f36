//! Arithmetic on scalars: sum, difference, product, quotient and square root.
//!
//! Each operation returns the scalar nearest to the exact result, as the
//! binary64 format asks of a correctly rounded operation. Where an operand is
//! undefined, or the exact result is too large for the format, or is not a
//! real number, the result is undefined. The format itself would give an
//! infinity for a result that is too large, and could get a number again from
//! it, as in dividing by it; here undefined stays undefined.

use crate::number::{
    lemma_magnitude_increases, lemma_magnitude_nonnegative, lemma_parts_of_pattern,
    lemma_sizes_compare, magnitude, signed, significand, unit_exponent, Scalar, HIDDEN_BIT,
    INFINITE, SIGN_BIT, UNDEFINED_BITS,
};
use crate::rounding::{
    bit_length, down_of, is_nearest, lemma_nearest_found, lemma_nearest_of_zero, lemma_pow2_128,
    power_of_two, round_to_pattern, rounded, up_of, within, Exact,
};
use vstd::arithmetic::power2::*;
use vstd::prelude::*;

verus! {

/// The bit pattern of the scalar one.
pub const ONE_BITS: u64 = 0x3FF0_0000_0000_0000;

/// The scalar zero, with the positive sign.
pub open spec fn zero() -> Scalar {
    Scalar { bits: 0 }
}

/// The scalar one.
pub open spec fn one() -> Scalar {
    Scalar { bits: ONE_BITS }
}

/// The undefined scalar.
pub open spec fn undefined() -> Scalar {
    Scalar { bits: UNDEFINED_BITS }
}

/// The scalar of the same size and the other sign.
pub open spec fn negated(a: Scalar) -> Scalar {
    if a.is_finite() {
        signed(!a.is_negative(), a.pattern())
    } else {
        undefined()
    }
}

/// The sum of two scalars, rounded to nearest. A sum that is exactly zero is
/// negative zero only where both terms are negative.
#[verifier::opaque]
pub open spec fn sum(a: Scalar, b: Scalar) -> Scalar {
    if !a.is_finite() || !b.is_finite() {
        undefined()
    } else {
        let total: int = a.scaled_value() + b.scaled_value();
        if total == 0 {
            signed(a.is_negative() && b.is_negative(), 0)
        } else if total < 0 {
            rounded(true, Exact::Ratio { num: -total, den: 1 })
        } else {
            rounded(false, Exact::Ratio { num: total, den: 1 })
        }
    }
}

/// The difference of two scalars, rounded to nearest.
pub open spec fn difference(a: Scalar, b: Scalar) -> Scalar {
    sum(a, negated(b))
}

/// The product of two scalars, rounded to nearest. Its sign is negative
/// exactly where the signs of the factors differ.
#[verifier::opaque]
pub open spec fn product(a: Scalar, b: Scalar) -> Scalar {
    if !a.is_finite() || !b.is_finite() {
        undefined()
    } else {
        rounded(
            a.is_negative() != b.is_negative(),
            Exact::Ratio {
                num: magnitude(a.pattern()) * magnitude(b.pattern()),
                den: pow2(1074) as int,
            },
        )
    }
}

/// The quotient of two scalars, rounded to nearest; undefined where the
/// divisor is zero.
#[verifier::opaque]
pub open spec fn quotient(a: Scalar, b: Scalar) -> Scalar {
    if !a.is_finite() || !b.is_finite() || b.is_zero() {
        undefined()
    } else {
        rounded(
            a.is_negative() != b.is_negative(),
            Exact::Ratio {
                num: magnitude(a.pattern()) * pow2(1074),
                den: magnitude(b.pattern()),
            },
        )
    }
}

/// The square root of a scalar, rounded to nearest; undefined below zero.
/// The root of a zero is that zero.
#[verifier::opaque]
pub open spec fn square_root(a: Scalar) -> Scalar {
    if !a.is_finite() || (a.is_negative() && !a.is_zero()) {
        undefined()
    } else {
        rounded(a.is_negative(), Exact::Root { radicand: magnitude(a.pattern()) * pow2(1074) })
    }
}

/// The scalar that stands for the whole number `n`.
pub open spec fn whole(n: nat) -> Scalar {
    rounded(false, Exact::Ratio { num: (n * pow2(1074)) as int, den: 1 })
}

/// Splits a finite pattern into its significand and unit exponent.
pub(crate) fn decode(pattern: u64) -> (parts: (u64, u32))
    requires
        pattern < INFINITE,
    ensures
        parts.0 == significand(pattern as int),
        parts.1 == unit_exponent(pattern as int),
        parts.1 <= 2045,
        parts.0 < 2 * HIDDEN_BIT,
        parts.1 > 0 ==> parts.0 >= HIDDEN_BIT,
        pattern > 0 ==> parts.0 > 0,
        magnitude(pattern as int) == parts.0 * pow2(parts.1 as nat),
        pattern == parts.1 * HIDDEN_BIT + parts.0,
{
    proof {
        lemma_parts_of_pattern(pattern as int);
    }
    let high: u64 = pattern / HIDDEN_BIT;
    let low: u64 = pattern % HIDDEN_BIT;
    if high == 0 {
        (low, 0)
    } else {
        (HIDDEN_BIT + low, (high - 1) as u32)
    }
}

impl Scalar {
    /// The scalar with the given bit pattern.
    pub fn from_bits(bits: u64) -> (r: Scalar)
        ensures
            r.bits == bits,
    {
        Scalar { bits }
    }

    /// The bit pattern of this scalar.
    pub fn to_bits(self) -> (bits: u64)
        ensures
            bits == self.bits,
    {
        self.bits
    }

    /// The scalar that every undefined result is returned as.
    pub fn undefined() -> (r: Scalar)
        ensures
            r == undefined(),
            !r.is_finite(),
    {
        Scalar { bits: UNDEFINED_BITS }
    }

    /// Whether this scalar stands for a number.
    pub fn finite(self) -> (r: bool)
        ensures
            r == self.is_finite(),
    {
        self.bits % SIGN_BIT < INFINITE
    }

    /// Whether this scalar stands for zero, of either sign.
    pub fn zero_valued(self) -> (r: bool)
        ensures
            r == self.is_zero(),
    {
        self.bits % SIGN_BIT == 0
    }

    /// Whether the sign bit is set.
    pub fn negative(self) -> (r: bool)
        ensures
            r == self.is_negative(),
    {
        self.bits >= SIGN_BIT
    }

    /// The pattern without its sign bit.
    pub(crate) fn size_bits(self) -> (r: u64)
        ensures
            r == self.pattern(),
            r < SIGN_BIT,
    {
        self.bits % SIGN_BIT
    }

    /// The scalar with the given sign and size, or undefined where the size
    /// is no finite pattern.
    pub(crate) fn compose(negative: bool, pattern: u64) -> (r: Scalar)
        requires
            pattern <= INFINITE,
        ensures
            pattern < INFINITE ==> r == signed(negative, pattern as int),
            pattern == INFINITE ==> r == undefined(),
            pattern < INFINITE ==> r.is_finite() && r.pattern() == pattern && r.is_negative()
                == negative,
    {
        if pattern >= INFINITE {
            Scalar { bits: UNDEFINED_BITS }
        } else if negative {
            Scalar { bits: SIGN_BIT + pattern }
        } else {
            Scalar { bits: pattern }
        }
    }

    /// The same number with the other sign.
    pub fn negate(self) -> (r: Scalar)
        ensures
            r == negated(self),
    {
        if self.finite() {
            Scalar::compose(!self.negative(), self.size_bits())
        } else {
            Scalar::undefined()
        }
    }
}

/// Adds the numbers of two patterns, or takes the smaller from the larger,
/// and rounds.
fn combine(large: u64, small: u64, subtract: bool) -> (k: u64)
    requires
        small <= large < INFINITE,
        large > 0,
        subtract ==> small < large,
    ensures
        is_nearest(
            Exact::Ratio {
                num: if subtract {
                    magnitude(large as int) - magnitude(small as int)
                } else {
                    magnitude(large as int) + magnitude(small as int)
                },
                den: 1,
            },
            k as int,
        ),
        k <= INFINITE,
{
    let (ma, ea) = decode(large);
    let (mb, eb) = decode(small);
    let gap: u32 = ea - eb;
    let ghost size_a: int = magnitude(large as int);
    let ghost size_b: int = magnitude(small as int);
    let ghost num: int = if subtract {
        size_a - size_b
    } else {
        size_a + size_b
    };
    let ghost x: Exact = Exact::Ratio { num, den: 1 };
    proof {
        lemma2_to64();
        lemma2_to64_rest();
        lemma_magnitude_nonnegative(small as int);
        lemma_pow2_pos(ea as nat);
        lemma_pow2_pos(eb as nat);
        lemma_pow2_pos(gap as nat);
        lemma_pow2_adds(gap as nat, eb as nat);
        if subtract {
            lemma_magnitude_increases(small as int, large as int);
        }
    }
    if gap <= 64 {
        let factor: u128 = power_of_two(gap);
        proof {
            if gap < 64 {
                lemma_pow2_strictly_increases(gap as nat, 64);
            }
            assert(ma * factor < 0x20_0000_0000_0000 * 0x1_0000_0000_0000_0000) by (nonlinear_arith)
                requires
                    0 <= ma < 0x20_0000_0000_0000,
                    0 < factor <= 0x1_0000_0000_0000_0000,
            ;
        }
        let wide: u128 = (ma as u128) * factor;
        proof {
            assert(wide * pow2(eb as nat) == size_a) by (nonlinear_arith)
                requires
                    wide == ma * factor,
                    factor == pow2(gap as nat),
                    pow2(ea as nat) == pow2(gap as nat) * pow2(eb as nat),
                    size_a == ma * pow2(ea as nat),
            ;
            if subtract {
                assert(wide > mb) by (nonlinear_arith)
                    requires
                        wide * pow2(eb as nat) == size_a,
                        size_b == mb * pow2(eb as nat),
                        size_b < size_a,
                        pow2(eb as nat) > 0,
                ;
            } else {
                assert(wide > 0) by (nonlinear_arith)
                    requires
                        wide == ma * factor,
                        ma > 0,
                        factor > 0,
                ;
            }
        }
        let m: u128 = if subtract {
            wide - mb as u128
        } else {
            wide + mb as u128
        };
        proof {
            let unit: int = pow2(eb as nat) as int;
            assert(m * unit == num) by (nonlinear_arith)
                requires
                    wide * unit == size_a,
                    size_b == mb * unit,
                    subtract ==> m == wide - mb && num == size_a - size_b,
                    !subtract ==> m == wide + mb && num == size_a + size_b,
            ;
            assert((m + 1) * unit > num) by (nonlinear_arith)
                requires
                    m * unit == num,
                    unit > 0,
            ;
            assert(within(x, m as int, eb as nat, 0, false)) by {
                assert(m * unit * 1 == num);
                assert(num * pow2(0) == num);
            }
        }
        round_to_pattern(m, eb as i32, false, Ghost(x))
    } else {
        let shifted: u128 = (ma as u128) * 1024;
        let inexact: bool = mb != 0;
        let m: u128 = if inexact && subtract {
            (shifted - 1) as u128
        } else {
            shifted
        };
        proof {
            let e: nat = (ea - 10) as nat;
            let unit: int = pow2(e) as int;
            lemma_pow2_pos(e);
            lemma_pow2_adds(10, e);
            assert(shifted * unit == size_a) by (nonlinear_arith)
                requires
                    shifted == ma * 1024,
                    pow2(ea as nat) == 1024 * unit,
                    size_a == ma * pow2(ea as nat),
            ;
            // the smaller term is less than one unit of `m`
            let reach: nat = (eb + 53) as nat;
            lemma_pow2_adds(53, eb as nat);
            lemma_pow2_strictly_increases(reach, e);
            assert(size_b < pow2(reach)) by (nonlinear_arith)
                requires
                    size_b == mb * pow2(eb as nat),
                    mb < 0x20_0000_0000_0000,
                    pow2(eb as nat) > 0,
                    pow2(reach) == 0x20_0000_0000_0000 * pow2(eb as nat),
            ;
            assert(size_b < unit);
            assert(inexact ==> size_b > 0) by (nonlinear_arith)
                requires
                    size_b == mb * pow2(eb as nat),
                    pow2(eb as nat) > 0,
                    inexact ==> mb > 0,
            ;
            assert(!inexact ==> size_b == 0) by (nonlinear_arith)
                requires
                    size_b == mb * pow2(eb as nat),
                    !inexact ==> mb == 0,
            ;
            let lo: int = m * unit;
            let hi: int = (m + 1) * unit;
            assert(hi == lo + unit) by (nonlinear_arith)
                requires
                    lo == m * unit,
                    hi == (m + 1) * unit,
            ;
            assert(lo == shifted * unit - if inexact && subtract {
                unit
            } else {
                0
            }) by (nonlinear_arith)
                requires
                    lo == m * unit,
                    inexact && subtract ==> m == shifted - 1,
                    !(inexact && subtract) ==> m == shifted,
            ;
            assert(within(x, m as int, e, 0, inexact)) by {
                assert(lo * 1 == lo);
                assert(hi * 1 == hi);
                assert(num * pow2(0) == num);
            }
        }
        round_to_pattern(m, (ea - 10) as i32, inexact, Ghost(x))
    }
}

impl Scalar {
    /// The sum of two scalars.
    pub fn plus(self, other: Scalar) -> (r: Scalar)
        ensures
            r == sum(self, other),
    {
        reveal(sum);
        if !self.finite() || !other.finite() {
            return Scalar::undefined();
        }
        let ka: u64 = self.size_bits();
        let kb: u64 = other.size_bits();
        let na: bool = self.negative();
        let nb: bool = other.negative();
        proof {
            lemma_sizes_compare(ka as int, kb as int);
        }
        if na == nb {
            if ka == 0 && kb == 0 {
                return Scalar::compose(na, 0);
            }
            let k: u64 = if ka >= kb {
                combine(ka, kb, false)
            } else {
                combine(kb, ka, false)
            };
            proof {
                let x: Exact = Exact::Ratio {
                    num: magnitude(ka as int) + magnitude(kb as int),
                    den: 1,
                };
                lemma_nearest_found(x, k as int);
            }
            Scalar::compose(na, k)
        } else if ka == kb {
            Scalar::compose(false, 0)
        } else if ka > kb {
            let k: u64 = combine(ka, kb, true);
            proof {
                let x: Exact = Exact::Ratio {
                    num: magnitude(ka as int) - magnitude(kb as int),
                    den: 1,
                };
                lemma_nearest_found(x, k as int);
            }
            Scalar::compose(na, k)
        } else {
            let k: u64 = combine(kb, ka, true);
            proof {
                let x: Exact = Exact::Ratio {
                    num: magnitude(kb as int) - magnitude(ka as int),
                    den: 1,
                };
                lemma_nearest_found(x, k as int);
            }
            Scalar::compose(nb, k)
        }
    }

    /// The difference of two scalars.
    pub fn minus(self, other: Scalar) -> (r: Scalar)
        ensures
            r == difference(self, other),
    {
        self.plus(other.negate())
    }
}

/// The largest whole number whose square is not more than `n`.
pub fn integer_root(n: u128) -> (q: u128)
    ensures
        q * q <= n < (q + 1) * (q + 1),
        q < 0x1_0000_0000_0000_0000,
{
    let mut q: u128 = 0;
    let mut step: u128 = 0x1_0000_0000_0000_0000;
    let mut i: u32 = 64;
    proof {
        lemma2_to64();
        assert(0x1_0000_0000_0000_0000int * 0x1_0000_0000_0000_0000int
            == 0x1_0000_0000_0000_0000_0000_0000_0000_0000int) by (nonlinear_arith);
    }
    while i > 0
        invariant
            i <= 64,
            step == pow2(i as nat),
            q * q <= n,
            n < (q + step) * (q + step),
            q + step <= 0x1_0000_0000_0000_0000,
        decreases i,
    {
        proof {
            lemma_pow2_unfold(i as nat);
            lemma_pow2_pos((i - 1) as nat);
        }
        let half: u128 = step / 2;
        let c: u128 = q + half;
        proof {
            assert(c * c <= 0xFFFF_FFFF_FFFF_FFFF * 0xFFFF_FFFF_FFFF_FFFF) by (nonlinear_arith)
                requires
                    0 <= c <= 0xFFFF_FFFF_FFFF_FFFF,
            ;
        }
        if c * c <= n {
            q = c;
        }
        step = half;
        i = i - 1;
    }
    proof {
        lemma2_to64();
    }
    q
}

impl Scalar {
    /// The product of two scalars.
    pub fn times(self, other: Scalar) -> (r: Scalar)
        ensures
            r == product(self, other),
    {
        reveal(product);
        if !self.finite() || !other.finite() {
            return Scalar::undefined();
        }
        let ka: u64 = self.size_bits();
        let kb: u64 = other.size_bits();
        let negative: bool = self.negative() != other.negative();
        let ghost size_a: int = magnitude(ka as int);
        let ghost size_b: int = magnitude(kb as int);
        let ghost x: Exact = Exact::Ratio { num: size_a * size_b, den: pow2(1074) as int };
        proof {
            lemma_pow2_pos(1074);
            lemma_magnitude_nonnegative(ka as int);
            lemma_magnitude_nonnegative(kb as int);
            assert(size_a * size_b >= 0) by (nonlinear_arith)
                requires
                    size_a >= 0,
                    size_b >= 0,
            ;
        }
        if ka == 0 || kb == 0 {
            proof {
                assert(size_a * size_b == 0) by (nonlinear_arith)
                    requires
                        size_a == 0 || size_b == 0,
                ;
                lemma_nearest_of_zero(x);
            }
            return Scalar::compose(negative, 0);
        }
        let (ma, ea) = decode(ka);
        let (mb, eb) = decode(kb);
        proof {
            assert(0 < ma * mb < 0x20_0000_0000_0000 * 0x20_0000_0000_0000) by (nonlinear_arith)
                requires
                    0 < ma < 0x20_0000_0000_0000,
                    0 < mb < 0x20_0000_0000_0000,
            ;
        }
        let m: u128 = (ma as u128) * (mb as u128);
        let e: i32 = ea as i32 + eb as i32 - 1074;
        proof {
            let up: nat = up_of(e as int);
            let down: nat = down_of(e as int);
            let pa: int = pow2(ea as nat) as int;
            let pb: int = pow2(eb as nat) as int;
            let pu: int = pow2(up) as int;
            let pd: int = pow2(down) as int;
            let ps: int = pow2(1074) as int;
            lemma_pow2_pos(up);
            lemma_pow2_adds(up, 1074);
            lemma_pow2_adds(ea as nat, eb as nat);
            lemma_pow2_adds((ea + eb) as nat, down);
            assert(pu * ps == pa * pb * pd);
            let lo: int = m * pu;
            let hi: int = (m + 1) * pu;
            assert(lo * ps == (size_a * size_b) * pd) by (nonlinear_arith)
                requires
                    lo == m * pu,
                    m == ma * mb,
                    size_a == ma * pa,
                    size_b == mb * pb,
                    pu * ps == pa * pb * pd,
            ;
            assert(hi * ps > lo * ps) by (nonlinear_arith)
                requires
                    lo == m * pu,
                    hi == (m + 1) * pu,
                    pu > 0,
                    ps > 0,
            ;
            assert(within(x, m as int, up, down, false));
        }
        let k: u64 = round_to_pattern(m, e, false, Ghost(x));
        proof {
            lemma_nearest_found(x, k as int);
        }
        Scalar::compose(negative, k)
    }

    /// The quotient of two scalars.
    pub fn over(self, other: Scalar) -> (r: Scalar)
        ensures
            r == quotient(self, other),
    {
        reveal(quotient);
        if !self.finite() || !other.finite() {
            return Scalar::undefined();
        }
        let ka: u64 = self.size_bits();
        let kb: u64 = other.size_bits();
        if kb == 0 {
            return Scalar::undefined();
        }
        let negative: bool = self.negative() != other.negative();
        let ghost size_a: int = magnitude(ka as int);
        let ghost size_b: int = magnitude(kb as int);
        let ghost x: Exact = Exact::Ratio { num: size_a * pow2(1074), den: size_b };
        proof {
            lemma_pow2_pos(1074);
            lemma_magnitude_nonnegative(ka as int);
            lemma_magnitude_increases(0, kb as int);
            assert(size_a * pow2(1074) >= 0) by (nonlinear_arith)
                requires
                    size_a >= 0,
                    pow2(1074) > 0,
            ;
        }
        if ka == 0 {
            proof {
                assert(size_a * pow2(1074) == 0) by (nonlinear_arith)
                    requires
                        size_a == 0,
                ;
                lemma_nearest_of_zero(x);
            }
            return Scalar::compose(negative, 0);
        }
        let (ma, ea) = decode(ka);
        let (mb, eb) = decode(kb);
        let length: u32 = bit_length(ma as u128);
        proof {
            lemma2_to64();
            lemma2_to64_rest();
            lemma_pow2_128();
            if length > 53 {
                lemma_pow2_strictly_increases(53, (length - 1) as nat);
            }
        }
        let lift: u32 = 53 - length + 64;
        let factor: u128 = power_of_two(lift);
        proof {
            lemma_pow2_pos(lift as nat);
            lemma_pow2_adds(length as nat, lift as nat);
            lemma_pow2_adds((length - 1) as nat, lift as nat);
            assert(ma * factor < pow2(117)) by (nonlinear_arith)
                requires
                    ma < pow2(length as nat),
                    factor == pow2(lift as nat),
                    factor > 0,
                    pow2(117) == pow2(length as nat) * pow2(lift as nat),
            ;
            assert(ma * factor >= pow2(116)) by (nonlinear_arith)
                requires
                    ma >= pow2((length - 1) as nat),
                    factor == pow2(lift as nat),
                    factor > 0,
                    pow2(116) == pow2((length - 1) as nat) * pow2(lift as nat),
            ;
            lemma_pow2_strictly_increases(117, 128);
            lemma_pow2_adds(64, 52);
            lemma_pow2_adds(64, 53);
        }
        let wide: u128 = (ma as u128) * factor;
        let q: u128 = wide / (mb as u128);
        let rest: u128 = wide % (mb as u128);
        let inexact: bool = rest != 0;
        let e: i32 = ea as i32 - lift as i32 - eb as i32 + 1074;
        proof {
            vstd::arithmetic::div_mod::lemma_fundamental_div_mod(wide as int, mb as int);
            assert(mb * q == q * mb) by (nonlinear_arith);
            assert(q >= 0x8000_0000_0000_0000) by (nonlinear_arith)
                requires
                    wide == q * mb + rest,
                    rest < mb,
                    0 < mb < 0x20_0000_0000_0000,
                    wide >= 0x1_0000_0000_0000_0000 * 0x10_0000_0000_0000,
                    q >= 0,
            ;
            let up: nat = up_of(e as int);
            let down: nat = down_of(e as int);
            let pa: int = pow2(ea as nat) as int;
            let pb: int = pow2(eb as nat) as int;
            let pu: int = pow2(up) as int;
            let pd: int = pow2(down) as int;
            let ps: int = pow2(1074) as int;
            let pl: int = pow2(lift as nat) as int;
            lemma_pow2_pos(up);
            lemma_pow2_pos(eb as nat);
            lemma_pow2_adds(up, eb as nat);
            lemma_pow2_adds((up + eb) as nat, lift as nat);
            lemma_pow2_adds(ea as nat, 1074);
            lemma_pow2_adds((ea + 1074) as nat, down);
            let shared: int = pu * pb;
            assert(shared * pl == pa * ps * pd);
            assert(shared > 0) by (nonlinear_arith)
                requires
                    shared == pu * pb,
                    pu > 0,
                    pb > 0,
            ;
            let lo: int = q * pu;
            let hi: int = (q + 1) * pu;
            let left: int = lo * size_b;
            let right: int = (size_a * ps) * pd;
            let top: int = hi * size_b;
            assert(left == (q * mb) * shared) by (nonlinear_arith)
                requires
                    left == lo * size_b,
                    lo == q * pu,
                    size_b == mb * pb,
                    shared == pu * pb,
            ;
            assert(top == (q * mb + mb) * shared) by (nonlinear_arith)
                requires
                    top == hi * size_b,
                    hi == (q + 1) * pu,
                    size_b == mb * pb,
                    shared == pu * pb,
            ;
            assert(right == wide * shared) by (nonlinear_arith)
                requires
                    right == (size_a * ps) * pd,
                    size_a == ma * pa,
                    wide == ma * pl,
                    shared * pl == pa * ps * pd,
            ;
            assert(left <= right && right < top && (inexact <==> left < right))
                by (nonlinear_arith)
                requires
                    left == (q * mb) * shared,
                    top == (q * mb + mb) * shared,
                    right == wide * shared,
                    wide == q * mb + rest,
                    0 <= rest < mb,
                    inexact <==> rest != 0,
                    shared > 0,
            ;
            assert(within(x, q as int, up, down, inexact));
        }
        let k: u64 = round_to_pattern(q, e, inexact, Ghost(x));
        proof {
            lemma_nearest_found(x, k as int);
        }
        Scalar::compose(negative, k)
    }

    /// The square root of a scalar.
    pub fn root(self) -> (r: Scalar)
        ensures
            r == square_root(self),
    {
        reveal(square_root);
        if !self.finite() {
            return Scalar::undefined();
        }
        let ka: u64 = self.size_bits();
        let ghost size_a: int = magnitude(ka as int);
        let ghost x: Exact = Exact::Root { radicand: size_a * pow2(1074) };
        proof {
            lemma_pow2_pos(1074);
            lemma_magnitude_nonnegative(ka as int);
            assert(size_a * pow2(1074) >= 0) by (nonlinear_arith)
                requires
                    size_a >= 0,
                    pow2(1074) > 0,
            ;
        }
        if ka == 0 {
            proof {
                assert(size_a * pow2(1074) == 0) by (nonlinear_arith)
                    requires
                        size_a == 0,
                ;
                lemma_nearest_of_zero(x);
            }
            return Scalar::compose(self.negative(), 0);
        }
        if self.negative() {
            return Scalar::undefined();
        }
        let (ma, ea) = decode(ka);
        let length: u32 = bit_length(ma as u128);
        proof {
            lemma2_to64();
            lemma2_to64_rest();
            lemma_pow2_128();
            if length > 53 {
                lemma_pow2_strictly_increases(53, (length - 1) as nat);
            }
        }
        let lift: u32 = 53 - length;
        let span: u32 = ea + 1074 - lift;
        let width: u32 = if span % 2 == 1 {
            73
        } else {
            74
        };
        let half_span: u32 = (span - width) / 2;
        let factor: u128 = power_of_two(lift + width);
        proof {
            lemma_pow2_pos((lift + width) as nat);
            lemma_pow2_adds(length as nat, (lift + width) as nat);
            lemma_pow2_adds((length - 1) as nat, (lift + width) as nat);
            assert(ma * factor < pow2((53 + width) as nat)) by (nonlinear_arith)
                requires
                    ma < pow2(length as nat),
                    factor == pow2((lift + width) as nat),
                    factor > 0,
                    pow2((53 + width) as nat) == pow2(length as nat) * pow2((lift + width) as nat),
            ;
            assert(ma * factor >= pow2((52 + width) as nat)) by (nonlinear_arith)
                requires
                    ma >= pow2((length - 1) as nat),
                    factor == pow2((lift + width) as nat),
                    factor > 0,
                    pow2((52 + width) as nat) == pow2((length - 1) as nat) * pow2(
                        (lift + width) as nat,
                    ),
            ;
            lemma_pow2_strictly_increases((53 + width) as nat, 128);
            lemma_pow2_adds(62, 62);
            if width == 74 {
                lemma_pow2_strictly_increases(124, 126);
            } else {
                lemma_pow2_strictly_increases(124, 125);
            }
        }
        let wide: u128 = (ma as u128) * factor;
        let q: u128 = integer_root(wide);
        let inexact: bool = q * q != wide;
        proof {
            assert(q >= 0x4000_0000_0000_0000) by (nonlinear_arith)
                requires
                    wide < (q + 1) * (q + 1),
                    wide > 0x4000_0000_0000_0000 * 0x4000_0000_0000_0000,
                    q >= 0,
            ;
            let h: nat = half_span as nat;
            let ph: int = pow2(h) as int;
            let pa: int = pow2(ea as nat) as int;
            let ps: int = pow2(1074) as int;
            let pf: int = factor as int;
            lemma_pow2_pos(h);
            lemma_pow2_adds(h, h);
            lemma_pow2_adds((lift + width) as nat, h + h);
            lemma_pow2_adds(ea as nat, 1074);
            assert(pf * (ph * ph) == pa * ps);
            let radicand: int = size_a * ps;
            assert(radicand == wide * (ph * ph)) by (nonlinear_arith)
                requires
                    radicand == size_a * ps,
                    size_a == ma * pa,
                    wide == ma * pf,
                    pf * (ph * ph) == pa * ps,
            ;
            let lo: int = q * ph;
            let hi: int = (q + 1) * ph;
            assert(lo * lo == (q * q) * (ph * ph)) by (nonlinear_arith)
                requires
                    lo == q * ph,
            ;
            assert(hi * hi == ((q + 1) * (q + 1)) * (ph * ph)) by (nonlinear_arith)
                requires
                    hi == (q + 1) * ph,
            ;
            assert(ph * ph > 0) by (nonlinear_arith)
                requires
                    ph > 0,
            ;
            let unit: int = ph * ph;
            let low_sq: int = q * q;
            let high_sq: int = (q + 1) * (q + 1);
            assert(low_sq * unit <= wide * unit && wide * unit < high_sq * unit && (inexact
                <==> low_sq * unit < wide * unit)) by (nonlinear_arith)
                requires
                    low_sq <= wide,
                    wide < high_sq,
                    inexact <==> low_sq != wide,
                    unit > 0,
            ;
            assert(radicand * (pow2(0) * pow2(0)) == radicand) by (nonlinear_arith)
                requires
                    pow2(0) == 1,
            ;
            assert(within(x, q as int, h, 0, inexact));
        }
        let k: u64 = round_to_pattern(q, half_span as i32, inexact, Ghost(x));
        proof {
            lemma_nearest_found(x, k as int);
        }
        Scalar::compose(false, k)
    }

    /// The scalar that stands for a whole number.
    pub fn from_count(n: u32) -> (r: Scalar)
        ensures
            r == whole(n as nat),
            r.is_finite(),
            !r.is_negative(),
            r.scaled_value() == n * pow2(1074),
    {
        let ghost x: Exact = Exact::Ratio { num: n * pow2(1074), den: 1 };
        if n == 0 {
            proof {
                lemma_magnitude_nonnegative(0);
                assert(0 * pow2(1074) == 0) by (nonlinear_arith);
                lemma_nearest_of_zero(x);
            }
            return Scalar { bits: 0 };
        }
        proof {
            lemma2_to64();
            lemma_pow2_pos(1074);
            let unit: int = pow2(1074) as int;
            assert(n * unit > 0 && (n + 1) * unit > n * unit) by (nonlinear_arith)
                requires
                    n > 0,
                    unit > 0,
            ;
            assert(within(x, n as int, 1074, 0, false)) by {
                assert((n * unit) * 1 == n * unit);
                assert(((n + 1) * unit) * 1 == (n + 1) * unit);
                assert((n * unit) * pow2(0) == n * unit);
            }
        }
        let k: u64 = round_to_pattern(n as u128, 1074, false, Ghost(x));
        proof {
            lemma_nearest_found(x, k as int);
        }
        Scalar::compose(false, k)
    }

    /// Whether this scalar stands for a number above zero.
    pub fn is_positive(self) -> (r: bool)
        ensures
            r == (self.is_finite() && self.scaled_value() > 0),
    {
        proof {
            lemma_magnitude_nonnegative(self.pattern());
            if self.pattern() > 0 {
                lemma_magnitude_increases(0, self.pattern());
            }
        }
        self.finite() && !self.negative() && self.size_bits() > 0
    }

    /// Whether both scalars stand for numbers and this one for the smaller.
    pub fn less_than(self, other: Scalar) -> (r: bool)
        ensures
            r == (self.is_finite() && other.is_finite() && self.scaled_value()
                < other.scaled_value()),
    {
        if !self.finite() || !other.finite() {
            return false;
        }
        let ka: u64 = self.size_bits();
        let kb: u64 = other.size_bits();
        proof {
            lemma_sizes_compare(ka as int, kb as int);
        }
        if self.negative() {
            if other.negative() {
                kb < ka
            } else {
                ka > 0 || kb > 0
            }
        } else if other.negative() {
            false
        } else {
            ka < kb
        }
    }
}

} // verus!
