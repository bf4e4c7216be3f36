//! Rounding an exact result to the nearest double-precision number.
//!
//! An arithmetic operation on scalars has an exact result that the format can
//! seldom hold. The result that is returned is the nearest number of the
//! format, and of two that are equally near the one whose pattern is even.
//! This module says what "nearest" means, proves that it names one pattern,
//! and computes it.

use crate::number::{
    lemma_magnitude_increases, lemma_magnitude_nonnegative, lemma_magnitude_of_parts,
    magnitude, signed, Scalar, HIDDEN_BIT, INFINITE, UNDEFINED_BITS,
};
use vstd::arithmetic::power2::*;
use vstd::prelude::*;

verus! {

/// A non-negative exact result, in units of 2^-1074.
pub enum Exact {
    /// The quotient of `num` by `den`.
    Ratio { num: int, den: int },
    /// The square root of `radicand`.
    Root { radicand: int },
}

impl Exact {
    /// Whether this names a non-negative number.
    pub open spec fn well_formed(self) -> bool {
        match self {
            Exact::Ratio { num, den } => num >= 0 && den > 0,
            Exact::Root { radicand } => radicand >= 0,
        }
    }

    /// A number with the sign of `2 * self - t`, for `t` not negative.
    pub open spec fn twice_minus(self, t: int) -> int {
        match self {
            Exact::Ratio { num, den } => 2 * num - t * den,
            Exact::Root { radicand } => 4 * radicand - t * t,
        }
    }
}

/// Twice the midpoint between the numbers of a pattern and of the next one.
pub open spec fn twice_midpoint(pattern: int) -> int {
    magnitude(pattern) + magnitude(pattern + 1)
}

/// Whether `pattern` is the nearest to `x`: `x` lies between the midpoints on
/// either side of the pattern's number, and lies on one of them only if the
/// pattern is even. Numbers too large for the format are nearest to
/// `INFINITE`.
pub open spec fn is_nearest(x: Exact, pattern: int) -> bool {
    &&& 0 <= pattern <= INFINITE
    &&& pattern > 0 ==> {
        let d: int = x.twice_minus(twice_midpoint(pattern - 1));
        d > 0 || (d == 0 && pattern % 2 == 0)
    }
    &&& pattern < INFINITE ==> {
        let d: int = x.twice_minus(twice_midpoint(pattern));
        d < 0 || (d == 0 && pattern % 2 == 0)
    }
}

/// The pattern nearest to `x`.
pub open spec fn nearest(x: Exact) -> int {
    choose|pattern: int| is_nearest(x, pattern)
}

/// The scalar nearest to `x` with the given sign, or undefined where `x` is
/// too large for the format.
pub open spec fn rounded(negative: bool, x: Exact) -> Scalar {
    if nearest(x) < INFINITE {
        signed(negative, nearest(x))
    } else {
        Scalar { bits: UNDEFINED_BITS }
    }
}

/// Against a larger threshold the comparison comes out smaller.
pub proof fn lemma_twice_minus_decreases(x: Exact, low: int, high: int)
    requires
        x.well_formed(),
        0 <= low < high,
    ensures
        x.twice_minus(low) > x.twice_minus(high),
{
    match x {
        Exact::Ratio { num, den } => {
            assert(low * den < high * den) by (nonlinear_arith)
                requires
                    low < high,
                    den > 0,
            ;
        },
        Exact::Root { radicand } => {
            assert(low * low < high * high) by (nonlinear_arith)
                requires
                    0 <= low < high,
            ;
        },
    }
}

/// A number that a pattern stands for is nearest to that pattern.
pub proof fn lemma_nearest_of_held(pattern: int)
    requires
        0 <= pattern < INFINITE,
    ensures
        is_nearest(Exact::Ratio { num: magnitude(pattern), den: 1 }, pattern),
        nearest(Exact::Ratio { num: magnitude(pattern), den: 1 }) == pattern,
{
    let x: Exact = Exact::Ratio { num: magnitude(pattern), den: 1 };
    lemma_magnitude_nonnegative(pattern);
    lemma_magnitude_increases(pattern, pattern + 1);
    if pattern > 0 {
        lemma_magnitude_increases(pattern - 1, pattern);
    }
    lemma_nearest_found(x, pattern);
}

/// Zero is nearest to pattern zero, whatever it is divided by or the root of.
pub proof fn lemma_nearest_of_zero(x: Exact)
    requires
        x.well_formed(),
        x matches Exact::Ratio { num, .. } ==> num == 0,
        x matches Exact::Root { radicand } ==> radicand == 0,
    ensures
        is_nearest(x, 0),
        nearest(x) == 0,
{
    lemma_magnitude_nonnegative(0);
    lemma_magnitude_increases(0, 1);
    let t: int = twice_midpoint(0);
    match x {
        Exact::Ratio { num, den } => {
            assert(t * den > 0) by (nonlinear_arith)
                requires
                    t > 0,
                    den > 0,
            ;
        },
        Exact::Root { radicand } => {
            assert(t * t > 0) by (nonlinear_arith)
                requires
                    t > 0,
            ;
        },
    }
    lemma_nearest_found(x, 0);
}

/// Midpoints grow with their patterns.
pub proof fn lemma_midpoint_increases(low: int, high: int)
    requires
        0 <= low < high,
    ensures
        0 <= twice_midpoint(low) < twice_midpoint(high),
{
    lemma_magnitude_increases(low, high);
    lemma_magnitude_increases(low + 1, high + 1);
    lemma_magnitude_nonnegative(low);
    lemma_magnitude_nonnegative(low + 1);
}

/// At most one pattern is nearest to an exact result.
pub proof fn lemma_nearest_is_unique(x: Exact, first: int, second: int)
    requires
        x.well_formed(),
        is_nearest(x, first),
        is_nearest(x, second),
    ensures
        first == second,
{
    lemma_nearest_not_below(x, first, second);
    lemma_nearest_not_below(x, second, first);
}

proof fn lemma_nearest_not_below(x: Exact, low: int, high: int)
    requires
        x.well_formed(),
        is_nearest(x, low),
        is_nearest(x, high),
    ensures
        low >= high,
{
    if low < high {
        lemma_nearest_gap(x, low, high);
    }
}

proof fn lemma_nearest_gap(x: Exact, low: int, high: int)
    requires
        x.well_formed(),
        is_nearest(x, low),
        is_nearest(x, high),
        low < high,
    ensures
        low >= high,
{
    let above_low: int = x.twice_minus(twice_midpoint(low));
    let below_high: int = x.twice_minus(twice_midpoint(high - 1));
    assert(above_low <= 0);
    assert(below_high >= 0);
    if low < high - 1 {
        lemma_midpoint_increases(low, high - 1);
        lemma_twice_minus_decreases(x, twice_midpoint(low), twice_midpoint(high - 1));
    } else {
        assert(above_low == 0);
        assert(low % 2 == 0 && high % 2 == 0);
    }
}

/// Whether `x` is at or above the midpoint below `pattern`. Every result
/// reaches pattern zero.
pub open spec fn reaches(x: Exact, pattern: int) -> bool {
    pattern <= 0 || x.twice_minus(twice_midpoint(pattern - 1)) >= 0
}

/// The largest pattern up to `limit` that `x` reaches.
pub open spec fn last_reached(x: Exact, limit: int) -> int
    decreases limit,
{
    if limit <= 0 {
        0
    } else if reaches(x, limit) {
        limit
    } else {
        last_reached(x, limit - 1)
    }
}

/// The last pattern that is reached is reached, and the one after it is not.
pub proof fn lemma_last_reached(x: Exact, limit: int)
    requires
        limit >= 0,
    ensures
        0 <= last_reached(x, limit) <= limit,
        reaches(x, last_reached(x, limit)),
        last_reached(x, limit) < limit ==> !reaches(x, last_reached(x, limit) + 1),
    decreases limit,
{
    if limit > 0 && !reaches(x, limit) {
        lemma_last_reached(x, limit - 1);
    }
}

/// Every exact result has a nearest pattern, and `nearest` names it.
pub proof fn lemma_nearest_exists(x: Exact)
    requires
        x.well_formed(),
    ensures
        is_nearest(x, nearest(x)),
{
    let k: int = last_reached(x, INFINITE as int);
    lemma_last_reached(x, INFINITE as int);
    if k > 0 && x.twice_minus(twice_midpoint(k - 1)) == 0 && k % 2 != 0 {
        if k - 1 > 0 {
            lemma_midpoint_increases(k - 2, k - 1);
            lemma_twice_minus_decreases(x, twice_midpoint(k - 2), twice_midpoint(k - 1));
        }
        assert(is_nearest(x, k - 1));
    } else {
        assert(is_nearest(x, k));
    }
}

/// Whether the quotient of `low_num` by `low_den` is at most that of
/// `high_num` by `high_den`.
pub open spec fn ratio_at_most(low_num: int, low_den: int, high_num: int, high_den: int) -> bool {
    low_num * high_den <= high_num * low_den
}

/// Rounding keeps the order: of two quotients, the one that is not larger
/// has the nearest pattern that is not larger.
pub proof fn lemma_nearest_keeps_order(low_num: int, low_den: int, high_num: int, high_den: int)
    requires
        low_num >= 0,
        low_den > 0,
        high_num >= 0,
        high_den > 0,
        ratio_at_most(low_num, low_den, high_num, high_den),
    ensures
        nearest(Exact::Ratio { num: low_num, den: low_den }) <= nearest(
            Exact::Ratio { num: high_num, den: high_den },
        ),
{
    let x: Exact = Exact::Ratio { num: low_num, den: low_den };
    let y: Exact = Exact::Ratio { num: high_num, den: high_den };
    lemma_nearest_exists(x);
    lemma_nearest_exists(y);
    let kx: int = nearest(x);
    let ky: int = nearest(y);
    if kx > ky {
        let tx: int = twice_midpoint(kx - 1);
        let ty: int = twice_midpoint(ky);
        if ky < kx - 1 {
            lemma_midpoint_increases(ky, kx - 1);
        }
        lemma_magnitude_nonnegative(ky);
        lemma_magnitude_nonnegative(ky + 1);
        assert(ty <= tx);
        assert(2 * low_num >= tx * low_den);
        assert(2 * high_num <= ty * high_den);
        assert(ty == tx && 2 * low_num == tx * low_den && 2 * high_num == ty * high_den)
            by (nonlinear_arith)
            requires
                0 <= ty <= tx,
                2 * low_num >= tx * low_den,
                2 * high_num <= ty * high_den,
                low_num * high_den <= high_num * low_den,
                low_den > 0,
                high_den > 0,
        ;
    }
}

/// Rounding a quotient moves it by less than half of itself upward and less
/// than a third downward: the size of the nearest pattern is at most twice
/// the quotient, and the quotient at most one and a half times the size,
/// unless it is nearest to zero or out of range.
pub proof fn lemma_nearest_is_close(num: int, den: int)
    requires
        num >= 0,
        den > 0,
    ensures
        magnitude(nearest(Exact::Ratio { num, den })) * den <= 2 * num,
        1 <= nearest(Exact::Ratio { num, den }) < INFINITE ==> 2 * num <= 3 * magnitude(
            nearest(Exact::Ratio { num, den }),
        ) * den,
        nearest(Exact::Ratio { num, den }) == 0 ==> 2 * num <= den,
{
    let x: Exact = Exact::Ratio { num, den };
    lemma_nearest_exists(x);
    let k: int = nearest(x);
    let size: int = magnitude(k);
    lemma_magnitude_nonnegative(k);
    crate::number::lemma_next_size(k);
    if k > 0 {
        lemma_magnitude_nonnegative(k - 1);
        let below: int = twice_midpoint(k - 1);
        assert(size * den <= below * den) by (nonlinear_arith)
            requires
                size <= below,
                den > 0,
        ;
    } else {
        assert(size * den == 0) by (nonlinear_arith)
            requires
                size == 0,
        ;
    }
    if k < INFINITE {
        let above: int = twice_midpoint(k);
        if k >= 1 {
            assert(above * den <= 3 * size * den) by (nonlinear_arith)
                requires
                    above <= 3 * size,
                    den > 0,
            ;
        } else {
            assert(above * den == den) by (nonlinear_arith)
                requires
                    above == 1,
            ;
        }
    }
}

/// Rounding a square root moves it by less than a third downward: the root
/// is at most one and a half times the size of the nearest pattern, unless
/// it is nearest to zero or out of range.
pub proof fn lemma_nearest_root_is_close(radicand: int)
    requires
        radicand >= 0,
    ensures
        1 <= nearest(Exact::Root { radicand }) < INFINITE ==> 4 * radicand <= 9 * (magnitude(
            nearest(Exact::Root { radicand }),
        ) * magnitude(nearest(Exact::Root { radicand }))),
        magnitude(nearest(Exact::Root { radicand })) * magnitude(
            nearest(Exact::Root { radicand }),
        ) <= 4 * radicand,
        nearest(Exact::Root { radicand }) == 0 ==> radicand == 0,
{
    let x: Exact = Exact::Root { radicand };
    lemma_nearest_exists(x);
    let k: int = nearest(x);
    let size: int = magnitude(k);
    lemma_magnitude_nonnegative(k);
    crate::number::lemma_next_size(k);
    if 1 <= k < INFINITE {
        let above: int = twice_midpoint(k);
        assert(above * above <= 9 * (size * size)) by (nonlinear_arith)
            requires
                0 <= above <= 3 * size,
        ;
    }
    if k > 0 {
        lemma_magnitude_nonnegative(k - 1);
        let below: int = twice_midpoint(k - 1);
        assert(size * size <= below * below) by (nonlinear_arith)
            requires
                0 <= size <= below,
        ;
    } else {
        assert(size * size == 0) by (nonlinear_arith)
            requires
                size == 0,
        ;
        let above: int = twice_midpoint(0);
        assert(above == 1);
        assert(above * above == 1) by (nonlinear_arith)
            requires
                above == 1,
        ;
    }
}

/// A pattern that is nearest to `x` is the one that `nearest` names.
pub proof fn lemma_nearest_found(x: Exact, pattern: int)
    requires
        x.well_formed(),
        is_nearest(x, pattern),
    ensures
        nearest(x) == pattern,
{
    lemma_nearest_is_unique(x, pattern, nearest(x));
}

/// Whether `x` lies in the interval of length `2^up / 2^down` that starts at
/// `m * 2^up / 2^down`, the upper end left out, and is the lower end exactly
/// when `inexact` is false.
pub open spec fn within(x: Exact, m: int, up: nat, down: nat, inexact: bool) -> bool {
    let lo: int = m * pow2(up);
    let hi: int = (m + 1) * pow2(up);
    let d: int = pow2(down) as int;
    match x {
        Exact::Ratio { num, den } => {
            &&& lo * den <= num * d
            &&& num * d < hi * den
            &&& inexact <==> lo * den < num * d
        },
        Exact::Root { radicand } => {
            &&& lo * lo <= radicand * (d * d)
            &&& radicand * (d * d) < hi * hi
            &&& inexact <==> lo * lo < radicand * (d * d)
        },
    }
}

/// How an exact result compares with a threshold, given an interval in which
/// the result lies.
pub proof fn lemma_sign_from_bounds(x: Exact, m: int, up: nat, down: nat, inexact: bool, t: int)
    requires
        x.well_formed(),
        m >= 0,
        t >= 0,
        within(x, m, up, down, inexact),
    ensures
        t * pow2(down) <= 2 * m * pow2(up) ==> x.twice_minus(t) >= 0,
        t * pow2(down) < 2 * m * pow2(up) ==> x.twice_minus(t) > 0,
        t * pow2(down) <= 2 * m * pow2(up) && inexact ==> x.twice_minus(t) > 0,
        t * pow2(down) >= 2 * (m + 1) * pow2(up) ==> x.twice_minus(t) < 0,
        t * pow2(down) >= 2 * m * pow2(up) && !inexact ==> x.twice_minus(t) <= 0,
        t * pow2(down) > 2 * m * pow2(up) && !inexact ==> x.twice_minus(t) < 0,
{
    lemma_pow2_pos(up);
    lemma_pow2_pos(down);
    let u: int = pow2(up) as int;
    let d: int = pow2(down) as int;
    let lo: int = m * u;
    let hi: int = (m + 1) * u;
    let td: int = t * d;
    assert(2 * m * pow2(up) == 2 * lo) by (nonlinear_arith)
        requires
            lo == m * u,
            u == pow2(up),
    ;
    assert(2 * (m + 1) * pow2(up) == 2 * hi) by (nonlinear_arith)
        requires
            hi == (m + 1) * u,
            u == pow2(up),
    ;
    assert(lo >= 0 && hi >= 0) by (nonlinear_arith)
        requires
            lo == m * u,
            hi == (m + 1) * u,
            m >= 0,
            u > 0,
    ;
    assert(td >= 0) by (nonlinear_arith)
        requires
            td == t * d,
            t >= 0,
            d > 0,
    ;
    match x {
        Exact::Ratio { num, den } => {
            let nd: int = num * d;
            let lod: int = lo * den;
            let hid: int = hi * den;
            let tdd: int = td * den;
            let v: int = t * den;
            assert(tdd == v * d) by (nonlinear_arith)
                requires
                    tdd == td * den,
                    td == t * d,
                    v == t * den,
            ;
            assert(td <= 2 * lo ==> tdd <= 2 * lod) by (nonlinear_arith)
                requires
                    tdd == td * den,
                    lod == lo * den,
                    den > 0,
            ;
            assert(td < 2 * lo ==> tdd < 2 * lod) by (nonlinear_arith)
                requires
                    tdd == td * den,
                    lod == lo * den,
                    den > 0,
            ;
            assert(td >= 2 * hi ==> tdd >= 2 * hid) by (nonlinear_arith)
                requires
                    tdd == td * den,
                    hid == hi * den,
                    den > 0,
            ;
            assert(td >= 2 * lo ==> tdd >= 2 * lod) by (nonlinear_arith)
                requires
                    tdd == td * den,
                    lod == lo * den,
                    den > 0,
            ;
            assert(td > 2 * lo ==> tdd > 2 * lod) by (nonlinear_arith)
                requires
                    tdd == td * den,
                    lod == lo * den,
                    den > 0,
            ;
            // every comparison is now one between `v * d` and `2 * num * d`
            assert(v * d <= 2 * nd ==> v <= 2 * num) by (nonlinear_arith)
                requires
                    nd == num * d,
                    d > 0,
            ;
            assert(v * d < 2 * nd ==> v < 2 * num) by (nonlinear_arith)
                requires
                    nd == num * d,
                    d > 0,
            ;
            assert(v * d > 2 * nd ==> v > 2 * num) by (nonlinear_arith)
                requires
                    nd == num * d,
                    d > 0,
            ;
            assert(v * d >= 2 * nd ==> v >= 2 * num) by (nonlinear_arith)
                requires
                    nd == num * d,
                    d > 0,
            ;
        },
        Exact::Root { radicand } => {
            let rd: int = radicand * (d * d);
            let tt: int = td * td;
            let v: int = t * t;
            assert(tt == v * (d * d)) by (nonlinear_arith)
                requires
                    tt == td * td,
                    td == t * d,
                    v == t * t,
            ;
            assert(d * d > 0) by (nonlinear_arith)
                requires
                    d > 0,
            ;
            assert(td <= 2 * lo ==> tt <= 4 * (lo * lo)) by (nonlinear_arith)
                requires
                    tt == td * td,
                    td >= 0,
                    lo >= 0,
            ;
            assert(td < 2 * lo ==> tt < 4 * (lo * lo)) by (nonlinear_arith)
                requires
                    tt == td * td,
                    td >= 0,
                    lo >= 0,
            ;
            assert(td >= 2 * hi ==> tt >= 4 * (hi * hi)) by (nonlinear_arith)
                requires
                    tt == td * td,
                    td >= 0,
                    hi >= 0,
            ;
            assert(td >= 2 * lo ==> tt >= 4 * (lo * lo)) by (nonlinear_arith)
                requires
                    tt == td * td,
                    td >= 0,
                    lo >= 0,
            ;
            assert(td > 2 * lo ==> tt > 4 * (lo * lo)) by (nonlinear_arith)
                requires
                    tt == td * td,
                    td >= 0,
                    lo >= 0,
            ;
            let dd: int = d * d;
            assert(v * dd <= 4 * rd ==> v <= 4 * radicand) by (nonlinear_arith)
                requires
                    rd == radicand * dd,
                    dd > 0,
            ;
            assert(v * dd < 4 * rd ==> v < 4 * radicand) by (nonlinear_arith)
                requires
                    rd == radicand * dd,
                    dd > 0,
            ;
            assert(v * dd > 4 * rd ==> v > 4 * radicand) by (nonlinear_arith)
                requires
                    rd == radicand * dd,
                    dd > 0,
            ;
            assert(v * dd >= 4 * rd ==> v >= 4 * radicand) by (nonlinear_arith)
                requires
                    rd == radicand * dd,
                    dd > 0,
            ;
        },
    }
}

/// The pattern with the given digits is nearest to a result that it holds
/// exactly.
pub proof fn lemma_exact_pattern(x: Exact, m: int, up: nat, left: nat, exponent: nat, digits: int)
    requires
        x.well_formed(),
        m > 0,
        within(x, m, up, 0, false),
        up == exponent + left,
        digits == m * pow2(left),
        digits < 2 * HIDDEN_BIT,
        exponent > 0 ==> digits >= HIDDEN_BIT,
        exponent * HIDDEN_BIT + digits < INFINITE,
    ensures
        is_nearest(x, exponent * HIDDEN_BIT + digits),
        magnitude(exponent * HIDDEN_BIT + digits) == m * pow2(up),
{
    let k: int = exponent * HIDDEN_BIT + digits;
    lemma_pow2_pos(left);
    lemma_pow2_pos(exponent);
    lemma_pow2_adds(exponent, left);
    lemma2_to64();
    assert(digits > 0) by (nonlinear_arith)
        requires
            digits == m * pow2(left),
            m > 0,
            pow2(left) > 0,
    ;
    assert(exponent * HIDDEN_BIT >= 0) by (nonlinear_arith);
    lemma_magnitude_of_parts(exponent, digits);
    let size: int = magnitude(k);
    assert(size == m * pow2(up)) by (nonlinear_arith)
        requires
            size == digits * pow2(exponent),
            digits == m * pow2(left),
            pow2(up) == pow2(exponent) * pow2(left),
    ;
    assert(2 * m * pow2(up) == 2 * size) by (nonlinear_arith)
        requires
            size == m * pow2(up),
    ;
    lemma_magnitude_increases(k - 1, k);
    lemma_magnitude_increases(k, k + 1);
    lemma_magnitude_nonnegative(k - 1);
    let below: int = twice_midpoint(k - 1);
    let above: int = twice_midpoint(k);
    assert(below * pow2(0) == below && above * pow2(0) == above) by (nonlinear_arith)
        requires
            pow2(0) == 1,
    ;
    lemma_sign_from_bounds(x, m, up, 0, false, below);
    lemma_sign_from_bounds(x, m, up, 0, false, above);
}

/// Every result at or above 2^1024 is nearest to `INFINITE`.
pub proof fn lemma_overflowing_pattern(x: Exact, m: int, up: nat, inexact: bool, length: nat)
    requires
        x.well_formed(),
        m > 0,
        within(x, m, up, 0, inexact),
        length >= 1,
        m >= pow2((length - 1) as nat),
        up + length - 1 >= 2098,
    ensures
        is_nearest(x, INFINITE as int),
{
    let top: int = INFINITE as int;
    lemma2_to64();
    lemma2_to64_rest();
    lemma_magnitude_of_parts(2046, HIDDEN_BIT as int);
    assert(2046 * HIDDEN_BIT + HIDDEN_BIT == top);
    lemma_magnitude_increases(top - 1, top);
    lemma_magnitude_nonnegative(top - 1);
    let t: int = twice_midpoint(top - 1);
    lemma_pow2_adds(52, 2046);
    assert(magnitude(top) == pow2(2098)) by (nonlinear_arith)
        requires
            magnitude(top) == HIDDEN_BIT * pow2(2046),
            pow2(52) == HIDDEN_BIT,
            pow2(2098) == pow2(52) * pow2(2046),
    ;
    let total: nat = (up + length - 1) as nat;
    lemma_pow2_adds((length - 1) as nat, up);
    if total > 2098 {
        lemma_pow2_strictly_increases(2098, total);
    }
    lemma_pow2_pos(up);
    assert(m * pow2(up) >= pow2(total)) by (nonlinear_arith)
        requires
            m >= pow2((length - 1) as nat),
            pow2(total) == pow2((length - 1) as nat) * pow2(up),
            pow2(up) > 0,
    ;
    assert(t * pow2(0) == t) by (nonlinear_arith)
        requires
            pow2(0) == 1,
    ;
    assert(2 * m * pow2(up) == 2 * (m * pow2(up))) by (nonlinear_arith);
    lemma_sign_from_bounds(x, m, up, 0, inexact, t);
}

/// The pattern that rounding to nearest, ties to even, arrives at is nearest.
///
/// The result lies within `m * 2^up / 2^down` and the next such multiple. The
/// last `shift` bits of `m` are cut off, which leaves `digits` with `rest`
/// behind; the pattern is built from `digits` and raised by one where `rest`
/// is more than half of what was cut, or half of it with an odd `digits` or
/// with more of the result beyond `m`.
pub proof fn lemma_rounded_pattern(
    x: Exact,
    m: int,
    up: nat,
    down: nat,
    inexact: bool,
    shift: nat,
    exponent: nat,
    digits: int,
    rest: int,
    raise: bool,
)
    requires
        x.well_formed(),
        m > 0,
        within(x, m, up, down, inexact),
        shift >= 1,
        exponent + down == shift + up,
        m == digits * pow2(shift) + rest,
        0 <= rest < pow2(shift),
        0 <= digits < 2 * HIDDEN_BIT,
        exponent > 0 ==> digits >= HIDDEN_BIT,
        exponent <= 2045,
        raise <==> (2 * rest > pow2(shift) || (2 * rest == pow2(shift) && (inexact || digits % 2
            == 1))),
    ensures
        is_nearest(
            x,
            exponent * HIDDEN_BIT + digits + if raise {
                1int
            } else {
                0int
            },
        ),
{
    let h: int = HIDDEN_BIT as int;
    let base: int = exponent * h + digits;
    let cut: int = pow2(shift) as int;
    let u: int = pow2(up) as int;
    let d: int = pow2(down) as int;
    let unit: int = pow2(exponent) as int;
    lemma_pow2_pos(shift);
    lemma_pow2_pos(up);
    lemma_pow2_pos(down);
    lemma_pow2_pos(exponent);
    lemma_pow2_adds(exponent, down);
    lemma_pow2_adds(shift, up);
    lemma_pow2_unfold(shift);
    assert(unit * d == cut * u);
    assert(exponent * h >= 0) by (nonlinear_arith)
        requires
            h > 0,
    ;
    assert(base <= 2045 * h + digits) by (nonlinear_arith)
        requires
            base == exponent * h + digits,
            exponent <= 2045,
            h > 0,
    ;
    lemma_magnitude_of_parts(exponent, digits);
    lemma_magnitude_of_parts(exponent, digits + 1);
    assert(base + 1 == exponent * h + (digits + 1));
    let size: int = magnitude(base);
    let next: int = magnitude(base + 1);
    assert(size == digits * unit);
    assert(next == (digits + 1) * unit);
    let mu: int = m * u;
    assert(2 * m * pow2(up) == 2 * mu) by (nonlinear_arith)
        requires
            mu == m * u,
            u == pow2(up),
    ;
    assert(2 * (m + 1) * pow2(up) == 2 * mu + 2 * u) by (nonlinear_arith)
        requires
            mu == m * u,
            u == pow2(up),
    ;
    // in units of `1 / 2^down`: the number of `base`, and what `m` adds to it
    assert(size * d == digits * cut * u) by (nonlinear_arith)
        requires
            size == digits * unit,
            unit * d == cut * u,
    ;
    assert(next * d == digits * cut * u + cut * u) by (nonlinear_arith)
        requires
            next == (digits + 1) * unit,
            unit * d == cut * u,
    ;
    assert(mu == digits * cut * u + rest * u) by (nonlinear_arith)
        requires
            mu == m * u,
            m == digits * cut + rest,
    ;
    let ru: int = rest * u;
    let cu: int = cut * u;
    let qcu: int = digits * cut * u;
    assert(0 <= ru && ru + u <= cu) by (nonlinear_arith)
        requires
            ru == rest * u,
            cu == cut * u,
            0 <= rest,
            rest + 1 <= cut,
            u > 0,
    ;
    assert(2 * rest > cut ==> 2 * ru > cu) by (nonlinear_arith)
        requires
            ru == rest * u,
            cu == cut * u,
            u > 0,
    ;
    assert(2 * rest == cut ==> 2 * ru == cu) by (nonlinear_arith)
        requires
            ru == rest * u,
            cu == cut * u,
    ;
    let half: int = pow2((shift - 1) as nat) as int;
    assert(cut == 2 * half);
    assert(2 * rest < cut ==> 2 * ru + 2 * u <= cu) by (nonlinear_arith)
        requires
            ru == rest * u,
            cu == cut * u,
            u > 0,
            cut == 2 * half,
    {
        if 2 * rest < cut {
            assert(rest + 1 <= half);
            assert((rest + 1) * u <= half * u);
        }
    }
    let middle: int = twice_midpoint(base);
    assert(middle * d == 2 * qcu + cu) by (nonlinear_arith)
        requires
            middle == size + next,
            size * d == qcu,
            next * d == qcu + cu,
    ;
    lemma_sign_from_bounds(x, m, up, down, inexact, middle);
    if raise {
        let k: int = base + 1;
        if k < INFINITE {
            lemma_magnitude_increases(k, k + 1);
            let above: int = twice_midpoint(k);
            assert(above * d >= 2 * (qcu + cu)) by (nonlinear_arith)
                requires
                    above >= 2 * next,
                    next * d == qcu + cu,
                    d > 0,
            ;
            lemma_sign_from_bounds(x, m, up, down, inexact, above);
        }
        assert(k % 2 == 0 <==> digits % 2 == 1) by {
            assert((exponent * h) % 2 == 0) by (nonlinear_arith)
                requires
                    h == 0x0010_0000_0000_0000,
            ;
        }
    } else {
        let k: int = base;
        if k > 0 {
            lemma_magnitude_increases(k - 1, k);
            lemma_magnitude_nonnegative(k - 1);
            let below: int = twice_midpoint(k - 1);
            assert(below * d < 2 * qcu) by (nonlinear_arith)
                requires
                    below < 2 * size,
                    size * d == qcu,
                    d > 0,
            ;
            lemma_sign_from_bounds(x, m, up, down, inexact, below);
        }
        assert(k % 2 == 0 <==> digits % 2 == 0) by {
            assert((exponent * h) % 2 == 0) by (nonlinear_arith)
                requires
                    h == 0x0010_0000_0000_0000,
            ;
        }
    }
}

/// The part of an exponent that multiplies.
pub open spec fn up_of(e: int) -> nat {
    if e >= 0 {
        e as nat
    } else {
        0
    }
}

/// The part of an exponent that divides.
pub open spec fn down_of(e: int) -> nat {
    if e >= 0 {
        0
    } else {
        (-e) as nat
    }
}

/// Two to the power 128 is one more than the largest 128-bit number.
pub proof fn lemma_pow2_128()
    ensures
        pow2(128) == 0x1_0000_0000_0000_0000_0000_0000_0000_0000,
        pow2(127) == 0x8000_0000_0000_0000_0000_0000_0000_0000,
{
    lemma2_to64();
    lemma2_to64_rest();
    lemma_pow2_adds(64, 64);
    lemma_pow2_adds(64, 63);
}

/// Two to the power `n`.
pub fn power_of_two(n: u32) -> (r: u128)
    requires
        n < 128,
    ensures
        r == pow2(n as nat),
{
    let mut r: u128 = 1;
    let mut i: u32 = 0;
    proof {
        lemma2_to64();
    }
    while i < n
        invariant
            i <= n,
            n < 128,
            r == pow2(i as nat),
        decreases n - i,
    {
        proof {
            lemma_pow2_unfold((i + 1) as nat);
            lemma_pow2_128();
            if i + 1 < 127 {
                lemma_pow2_strictly_increases((i + 1) as nat, 127);
            }
        }
        r = r * 2;
        i = i + 1;
    }
    r
}

/// The number of binary digits of `m`.
pub fn bit_length(m: u128) -> (length: u32)
    requires
        m > 0,
    ensures
        1 <= length <= 128,
        pow2((length - 1) as nat) <= m < pow2(length as nat),
{
    let mut length: u32 = 1;
    let mut rest: u128 = m / 2;
    proof {
        lemma2_to64();
    }
    while rest > 0
        invariant
            1 <= length <= 128,
            rest == m as int / pow2(length as nat) as int,
            pow2((length - 1) as nat) <= m,
            length == 128 ==> rest == 0,
        decreases rest,
    {
        proof {
            let p: int = pow2(length as nat) as int;
            lemma_pow2_pos(length as nat);
            lemma_pow2_unfold((length + 1) as nat);
            lemma_pow2_128();
            if length + 1 < 128 {
                lemma_pow2_strictly_increases((length + 1) as nat, 128);
            }
            vstd::arithmetic::div_mod::lemma_div_denominator(m as int, p, 2);
            vstd::arithmetic::div_mod::lemma_fundamental_div_mod(m as int, p);
            assert(p * (m as int / p) >= p) by (nonlinear_arith)
                requires
                    m as int / p >= 1,
                    p > 0,
            ;
            if length + 1 == 128 {
                vstd::arithmetic::div_mod::lemma_basic_div(m as int, pow2(128) as int);
            }
        }
        rest = rest / 2;
        length = length + 1;
    }
    proof {
        let p: int = pow2(length as nat) as int;
        lemma_pow2_pos(length as nat);
        vstd::arithmetic::div_mod::lemma_fundamental_div_mod(m as int, p);
        assert(p * (m as int / p) == 0) by (nonlinear_arith)
            requires
                m as int / p == 0,
        ;
    }
    length
}

/// Rounds a positive result to the nearest pattern, ties to even.
///
/// The result is known to lie within `m * 2^e` and the next such multiple,
/// and to be more than `m * 2^e` exactly when `inexact` is set.
pub(crate) fn round_to_pattern(m: u128, e: i32, inexact: bool, Ghost(x): Ghost<Exact>) -> (k: u64)
    requires
        x.well_formed(),
        m > 0,
        -10000 <= e <= 10000,
        within(x, m as int, up_of(e as int), down_of(e as int), inexact),
        inexact ==> m >= 0x40_0000_0000_0000,
    ensures
        is_nearest(x, k as int),
        !inexact && 0 <= e <= 1900 && m < 0x20_0000_0000_0000 ==> k < INFINITE && magnitude(
            k as int,
        ) == m * pow2(e as nat),
{
    let length: u32 = bit_length(m);
    let wanted: i32 = length as i32 - 53;
    let shift: i32 = if wanted >= -e {
        wanted
    } else {
        -e
    };
    let exponent: i32 = e + shift;
    proof {
        lemma2_to64();
        lemma2_to64_rest();
        lemma_pow2_128();
        if inexact && length <= 54 {
            if length < 54 {
                lemma_pow2_strictly_increases(length as nat, 54);
            }
        }
    }
    if exponent >= 2046 {
        proof {
            lemma_overflowing_pattern(x, m as int, up_of(e as int), inexact, length as nat);
        }
        return INFINITE;
    }
    if shift <= 0 {
        let left: u32 = (-shift) as u32;
        let factor: u128 = power_of_two(left);
        proof {
            lemma_pow2_adds(length as nat, left as nat);
            lemma_pow2_adds((length - 1) as nat, left as nat);
            if length + left < 53 {
                lemma_pow2_strictly_increases((length + left) as nat, 53);
            }
            assert(m * factor < pow2((length + left) as nat)) by (nonlinear_arith)
                requires
                    m < pow2(length as nat),
                    factor == pow2(left as nat),
                    factor > 0,
                    pow2((length + left) as nat) == pow2(length as nat) * pow2(left as nat),
            ;
            assert(m * factor >= pow2((length - 1 + left) as nat)) by (nonlinear_arith)
                requires
                    m >= pow2((length - 1) as nat),
                    factor == pow2(left as nat),
                    factor > 0,
                    pow2((length - 1 + left) as nat) == pow2((length - 1) as nat) * pow2(
                        left as nat,
                    ),
            ;
        }
        let digits: u128 = m * factor;
        proof {
            assert(exponent * HIDDEN_BIT + digits < INFINITE) by (nonlinear_arith)
                requires
                    0 <= exponent <= 2045,
                    digits < 0x20_0000_0000_0000,
                    exponent > 0 ==> digits < 0x20_0000_0000_0000,
                    HIDDEN_BIT == 0x10_0000_0000_0000,
                    INFINITE == 0x7FF0_0000_0000_0000,
            ;
            lemma_exact_pattern(
                x,
                m as int,
                up_of(e as int),
                left as nat,
                exponent as nat,
                digits as int,
            );
        }
        return (exponent as u64) * HIDDEN_BIT + (digits as u64);
    }
    let mut digits: u128 = 0;
    let mut above: bool = false;
    let mut tie: bool = false;
    let ghost rest: int = m as int;
    if shift > 128 {
        proof {
            lemma_pow2_strictly_increases(129, (shift + 1) as nat);
            lemma_pow2_unfold(129);
            lemma_pow2_unfold(shift as nat);
            if shift > 129 {
                lemma_pow2_strictly_increases(129, shift as nat);
            }
        }
    } else if shift == 128 {
        let half: u128 = 0x8000_0000_0000_0000_0000_0000_0000_0000;
        above = m > half;
        tie = m == half;
    } else {
        let cut: u128 = power_of_two(shift as u32);
        proof {
            lemma_pow2_pos(shift as nat);
        }
        digits = m / cut;
        let low: u128 = m % cut;
        let half: u128 = cut / 2;
        above = low > half;
        tie = low == half;
        proof {
            rest = low as int;
            lemma_pow2_unfold(shift as nat);
            vstd::arithmetic::div_mod::lemma_fundamental_div_mod(m as int, cut as int);
            assert(cut * digits == digits * cut) by (nonlinear_arith);
            lemma_pow2_adds(shift as nat, 53);
            lemma_pow2_adds(shift as nat, 52);
            if length < shift + 53 {
                lemma_pow2_strictly_increases(length as nat, (shift + 53) as nat);
            }
            assert(digits < 0x20_0000_0000_0000) by (nonlinear_arith)
                requires
                    m == digits * cut + low,
                    low >= 0,
                    cut > 0,
                    m < cut * 0x20_0000_0000_0000,
            ;
            if exponent > 0 {
                assert(digits >= 0x10_0000_0000_0000) by (nonlinear_arith)
                    requires
                        m == digits * cut + low,
                        low < cut,
                        cut > 0,
                        m >= cut * 0x10_0000_0000_0000,
                ;
            }
        }
    }
    let raise: bool = above || (tie && (inexact || digits % 2 == 1));
    proof {
        assert(m == digits * pow2(shift as nat) + rest) by (nonlinear_arith)
            requires
                shift >= 128 ==> digits == 0 && rest == m,
                shift < 128 ==> m == digits * pow2(shift as nat) + rest,
        ;
        lemma_rounded_pattern(
            x,
            m as int,
            up_of(e as int),
            down_of(e as int),
            inexact,
            shift as nat,
            exponent as nat,
            digits as int,
            rest,
            raise,
        );
        assert(exponent * HIDDEN_BIT + digits <= 0x7FF0_0000_0000_0000 - 1) by (nonlinear_arith)
            requires
                0 <= exponent <= 2045,
                digits < 0x20_0000_0000_0000,
                HIDDEN_BIT == 0x10_0000_0000_0000,
        ;
    }
    let base: u64 = (exponent as u64) * HIDDEN_BIT + (digits as u64);
    if raise {
        base + 1
    } else {
        base
    }
}

} // verus!
