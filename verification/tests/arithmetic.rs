use nbody_sim::arith::integer_root;
use nbody_sim::number::Scalar;
use nbody_sim::rounding::{bit_length, power_of_two};

fn next(state: &mut u64) -> u64 {
    let mut x = *state;
    x ^= x << 13;
    x ^= x >> 7;
    x ^= x << 17;
    *state = x;
    x
}

fn sample(state: &mut u64) -> f64 {
    let raw = next(state);
    let kind = next(state) % 8;
    let bits = match kind {
        0 => raw,
        1 => raw & 0x800F_FFFF_FFFF_FFFF,
        2 => (raw & 0x800F_FFFF_FFFF_FFFF) | 0x3FF0_0000_0000_0000,
        3 => (raw & 0x803F_FFFF_FFFF_FFFF) | 0x3FC0_0000_0000_0000,
        4 => (raw & 0x80FF_FFFF_FFFF_FFFF) | 0x4000_0000_0000_0000,
        5 => raw & 0x8000_0000_0000_00FF,
        6 => (raw & 0x8000_0000_0000_0003) | 0x7FEF_FFFF_FFFF_FFFC,
        _ => (raw & 0x807F_FFFF_FFFF_FFFF) | 0x3F80_0000_0000_0000,
    };
    f64::from_bits(bits)
}

fn same(expected: f64, got: Scalar) -> bool {
    if expected.is_finite() {
        got.to_bits() == expected.to_bits()
    } else {
        !got.finite()
    }
}

fn scalar(x: f64) -> Scalar {
    Scalar::from_bits(x.to_bits())
}

#[test]
fn plus_agrees_with_hardware() {
    let mut state: u64 = 0x9E37_79B9_7F4A_7C15;
    for _ in 0..200_000 {
        let a = sample(&mut state);
        let b = sample(&mut state);
        assert!(same(a + b, scalar(a).plus(scalar(b))), "{:e} + {:e}", a, b);
    }
}

#[test]
fn minus_agrees_with_hardware() {
    let mut state: u64 = 0xD1B5_4A32_D192_ED03;
    for _ in 0..200_000 {
        let a = sample(&mut state);
        let b = sample(&mut state);
        assert!(same(a - b, scalar(a).minus(scalar(b))), "{:e} - {:e}", a, b);
    }
}

#[test]
fn sums_of_zeros_keep_the_right_sign() {
    let pz = scalar(0.0);
    let nz = scalar(-0.0);
    assert_eq!(pz.plus(pz).to_bits(), 0);
    assert_eq!(pz.plus(nz).to_bits(), 0);
    assert_eq!(nz.plus(pz).to_bits(), 0);
    assert_eq!(nz.plus(nz).to_bits(), 0x8000_0000_0000_0000);
    assert_eq!(scalar(1.5).minus(scalar(1.5)).to_bits(), 0);
    assert_eq!(scalar(-1.5).plus(scalar(1.5)).to_bits(), 0);
}

#[test]
fn times_agrees_with_hardware() {
    let mut state: u64 = 0x2545_F491_4F6C_DD1D;
    for _ in 0..200_000 {
        let a = sample(&mut state);
        let b = sample(&mut state);
        assert!(same(a * b, scalar(a).times(scalar(b))), "{:e} * {:e}", a, b);
    }
}

#[test]
fn over_agrees_with_hardware() {
    let mut state: u64 = 0x1234_5678_9ABC_DEF1;
    for _ in 0..200_000 {
        let a = sample(&mut state);
        let b = sample(&mut state);
        assert!(same(a / b, scalar(a).over(scalar(b))), "{:e} / {:e}", a, b);
    }
}

#[test]
fn root_agrees_with_hardware() {
    let mut state: u64 = 0x0F0F_1234_FEDC_BA98;
    for _ in 0..200_000 {
        let a = sample(&mut state);
        assert!(same(a.sqrt(), scalar(a).root()), "sqrt {:e}", a);
        let b = a.abs();
        assert!(same(b.sqrt(), scalar(b).root()), "sqrt {:e}", b);
    }
}

#[test]
fn root_of_squares_and_zeros() {
    assert_eq!(scalar(4.0).root().to_bits(), 2.0f64.to_bits());
    assert_eq!(scalar(2.0).root().to_bits(), 2.0f64.sqrt().to_bits());
    assert_eq!(scalar(0.0).root().to_bits(), 0);
    assert_eq!(scalar(-0.0).root().to_bits(), 0x8000_0000_0000_0000);
    assert!(!scalar(-1.0).root().finite());
    assert_eq!(scalar(5e-324).root().to_bits(), 5e-324f64.sqrt().to_bits());
    assert_eq!(scalar(f64::MAX).root().to_bits(), f64::MAX.sqrt().to_bits());
}

#[test]
fn division_by_zero_is_undefined() {
    assert!(!scalar(1.0).over(scalar(0.0)).finite());
    assert!(!scalar(0.0).over(scalar(0.0)).finite());
    assert!(!scalar(-3.0).over(scalar(-0.0)).finite());
    assert_eq!(scalar(0.0).over(scalar(-2.0)).to_bits(), 0x8000_0000_0000_0000);
}

#[test]
fn results_too_large_are_undefined() {
    assert!(!scalar(f64::MAX).plus(scalar(f64::MAX)).finite());
    assert!(!scalar(1e200).times(scalar(1e200)).finite());
    assert!(!scalar(1e200).over(scalar(1e-200)).finite());
    assert!(scalar(f64::MAX).plus(scalar(1.0)).finite());
}

#[test]
fn undefined_operands_give_undefined_results() {
    let bad = [f64::NAN, f64::INFINITY, f64::NEG_INFINITY];
    for x in bad {
        assert!(!scalar(x).finite());
        assert!(!scalar(x).plus(scalar(1.0)).finite());
        assert!(!scalar(1.0).minus(scalar(x)).finite());
        assert!(!scalar(x).times(scalar(0.0)).finite());
        assert!(!scalar(1.0).over(scalar(x)).finite());
        assert!(!scalar(x).root().finite());
        assert!(!scalar(x).negate().finite());
        assert!(!scalar(x).is_positive());
        assert!(!scalar(x).less_than(scalar(1.0)));
        assert!(!scalar(1.0).less_than(scalar(x)));
    }
    assert_eq!(Scalar::undefined().to_bits(), 0x7FF8_0000_0000_0000);
}

#[test]
fn counts_convert_exactly() {
    for n in [0u32, 1, 2, 3, 10, 1000, 65_535, 1 << 31, u32::MAX] {
        assert_eq!(Scalar::from_count(n).to_bits(), (n as f64).to_bits());
    }
}

#[test]
fn comparisons_agree_with_hardware() {
    let mut state: u64 = 0xABCD_EF01_2345_6789;
    for _ in 0..200_000 {
        let a = sample(&mut state);
        let b = sample(&mut state);
        let expected = a.is_finite() && b.is_finite() && a < b;
        assert_eq!(scalar(a).less_than(scalar(b)), expected, "{:e} < {:e}", a, b);
        assert_eq!(scalar(a).is_positive(), a.is_finite() && a > 0.0);
    }
    assert!(!scalar(-0.0).less_than(scalar(0.0)));
    assert!(!scalar(0.0).less_than(scalar(-0.0)));
    assert!(scalar(-1.0).less_than(scalar(0.0)));
    assert!(scalar(-2.0).less_than(scalar(-1.0)));
    assert!(!scalar(0.0).is_positive());
    assert!(!scalar(-0.0).is_positive());
    assert!(scalar(5e-324).is_positive());
}

#[test]
fn negation_flips_the_sign() {
    assert_eq!(scalar(1.5).negate().to_bits(), (-1.5f64).to_bits());
    assert_eq!(scalar(-0.0).negate().to_bits(), 0);
    assert_eq!(scalar(0.0).negate().to_bits(), 0x8000_0000_0000_0000);
}

#[test]
fn ties_round_to_even() {
    // 1 + 2^-53 lies halfway between 1 and the next number: the even one wins
    let one = scalar(1.0);
    let half_ulp = scalar(f64::from_bits(0x3CA0_0000_0000_0000));
    assert_eq!(one.plus(half_ulp).to_bits(), 1.0f64.to_bits());
    let next = scalar(f64::from_bits(0x3FF0_0000_0000_0001));
    assert_eq!(next.plus(half_ulp).to_bits(), 0x3FF0_0000_0000_0002);
}

#[test]
fn powers_of_two() {
    assert_eq!(power_of_two(0), 1);
    assert_eq!(power_of_two(1), 2);
    assert_eq!(power_of_two(64), 1u128 << 64);
    assert_eq!(power_of_two(127), 1u128 << 127);
}

#[test]
fn bit_lengths() {
    assert_eq!(bit_length(1), 1);
    assert_eq!(bit_length(2), 2);
    assert_eq!(bit_length(3), 2);
    assert_eq!(bit_length(255), 8);
    assert_eq!(bit_length(256), 9);
    assert_eq!(bit_length((1u128 << 53) - 1), 53);
    assert_eq!(bit_length(1u128 << 127), 128);
    assert_eq!(bit_length(u128::MAX), 128);
}

#[test]
fn integer_roots() {
    assert_eq!(integer_root(0), 0);
    assert_eq!(integer_root(1), 1);
    assert_eq!(integer_root(3), 1);
    assert_eq!(integer_root(4), 2);
    assert_eq!(integer_root(99), 9);
    assert_eq!(integer_root(100), 10);
    assert_eq!(integer_root(u128::MAX), u64::MAX as u128);
    let q: u128 = 0xFFFF_FFFF_FFFF_FFFF;
    assert_eq!(integer_root(q * q), q);
    assert_eq!(integer_root(q * q - 1), q - 1);
    let mut state: u64 = 0x1357_9BDF_0246_8ACE;
    for _ in 0..2000 {
        let n = ((next(&mut state) as u128) << 64) | next(&mut state) as u128;
        let r = integer_root(n);
        assert!(r * r <= n);
        assert!(r == u64::MAX as u128 || (r + 1) * (r + 1) > n);
    }
}

#[test]
fn smallest_and_largest_numbers() {
    let tiny = scalar(5e-324);
    let huge = scalar(f64::MAX);
    assert_eq!(tiny.plus(tiny).to_bits(), 2);
    assert_eq!(tiny.over(scalar(2.0)).to_bits(), 0);
    assert_eq!(scalar(1.5e-323).over(scalar(2.0)).to_bits(), (1.5e-323f64 / 2.0).to_bits());
    assert_eq!(tiny.times(tiny).to_bits(), 0);
    assert_eq!(tiny.times(scalar(-1.0)).times(tiny).to_bits(), 0x8000_0000_0000_0000);
    assert_eq!(huge.minus(huge).to_bits(), 0);
    assert_eq!(huge.over(huge).to_bits(), 1.0f64.to_bits());
    assert_eq!(huge.times(tiny).to_bits(), (f64::MAX * 5e-324).to_bits());
    assert_eq!(tiny.over(huge).to_bits(), 0);
    assert_eq!(
        scalar(2.2250738585072014e-308).minus(tiny).to_bits(),
        (2.2250738585072014e-308f64 - 5e-324).to_bits()
    );
}

#[test]
fn far_apart_terms_keep_the_larger() {
    let mut state: u64 = 0x0BAD_CAFE_DEAD_BEEF;
    for _ in 0..50_000 {
        let a = f64::from_bits((next(&mut state) & 0x800F_FFFF_FFFF_FFFF) | 0x4500_0000_0000_0000);
        let b = f64::from_bits((next(&mut state) & 0x800F_FFFF_FFFF_FFFF) | 0x3FF0_0000_0000_0000);
        let c = f64::from_bits(next(&mut state) & 0x8000_0000_0000_FFFF);
        assert!(same(a + b, scalar(a).plus(scalar(b))));
        assert!(same(a - b, scalar(a).minus(scalar(b))));
        assert!(same(b - a, scalar(b).minus(scalar(a))));
        assert!(same(a + c, scalar(a).plus(scalar(c))));
        assert!(same(c - a, scalar(c).minus(scalar(a))));
    }
    let edge = scalar(f64::from_bits(0x4500_0000_0000_0000));
    let small = scalar(1.0);
    assert_eq!(edge.minus(small).to_bits(), 0x4500_0000_0000_0000);
    assert_eq!(edge.plus(small).to_bits(), 0x4500_0000_0000_0000);
}

#[test]
fn zeros_of_either_sign_are_zero_valued() {
    assert!(scalar(0.0).zero_valued());
    assert!(scalar(-0.0).zero_valued());
    assert!(!scalar(5e-324).zero_valued());
    assert!(!scalar(-1.0).zero_valued());
    assert!(!scalar(f64::NAN).zero_valued());
    assert!(!scalar(f64::INFINITY).zero_valued());
}
