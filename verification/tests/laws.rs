use calculator::binary64::{
    decode, join, split, HIDDEN_BIT, INFINITY, ONE, POSITIVE_ZERO, QUIET_NAN, SIGN_BIT, TWO,
};
use calculator::product::product;
use calculator::quotient::quotient;
use calculator::sum::{difference, sum};
use calculator::wide::{bit_length, power_of_two, TWO_124, TWO_127, TWO_63, TWO_64};
use calculator::{helper_double, Calculator};

fn samples() -> Vec<u64> {
    let mut patterns: Vec<u64> = Vec::new();
    for x in [
        0.0f64,
        1.0,
        2.0,
        0.1,
        3.5,
        1e-320,
        5e-324,
        2.2250738585072014e-308,
        1e-200,
        1e200,
        1.7976931348623157e308,
        f64::INFINITY,
    ] {
        patterns.push(x.to_bits());
        patterns.push((-x).to_bits());
    }
    patterns
}

#[test]
fn the_constants_are_the_numbers_they_name() {
    assert_eq!(f64::from_bits(POSITIVE_ZERO), 0.0);
    assert!(f64::from_bits(POSITIVE_ZERO).is_sign_positive());
    assert_eq!(SIGN_BIT, (-0.0f64).to_bits());
    assert_eq!(ONE, 1.0f64.to_bits());
    assert_eq!(TWO, 2.0f64.to_bits());
    assert_eq!(INFINITY, f64::INFINITY.to_bits());
    assert!(f64::from_bits(QUIET_NAN).is_nan());
    assert_eq!(HIDDEN_BIT, 1u64 << 52);
    assert_eq!(TWO_63, 1u128 << 63);
    assert_eq!(TWO_64, 1u128 << 64);
    assert_eq!(TWO_124, 1u128 << 124);
    assert_eq!(TWO_127, 1u128 << 127);
}

#[test]
fn split_and_join_are_inverse() {
    for pattern in samples() {
        let (negative, magnitude) = split(pattern);
        assert_eq!(negative, f64::from_bits(pattern).is_sign_negative());
        assert_eq!(magnitude, f64::from_bits(pattern).abs().to_bits());
        assert_eq!(join(negative, magnitude), pattern);
    }
    assert_eq!(split(u64::MAX), (true, 0x7fff_ffff_ffff_ffff));
    assert_eq!(join(true, 0x7fff_ffff_ffff_ffff), u64::MAX);
}

#[test]
fn decode_reads_significand_and_exponent() {
    assert_eq!(decode(0), (0, 0));
    assert_eq!(decode(1), (1, 0));
    assert_eq!(decode(0x000f_ffff_ffff_ffff), (0x000f_ffff_ffff_ffff, 0));
    assert_eq!(decode(HIDDEN_BIT), (HIDDEN_BIT, 0));
    assert_eq!(decode(ONE), (HIDDEN_BIT, 1022));
    assert_eq!(decode(TWO), (HIDDEN_BIT, 1023));
    assert_eq!(decode(1.5f64.to_bits()), (3 << 51, 1022));
    assert_eq!(decode(f64::MAX.to_bits()), (0x001f_ffff_ffff_ffff, 2045));
    assert_eq!(decode(INFINITY), (HIDDEN_BIT, 2046));
    // The number is the significand times 2^(exponent - 1074).
    for x in [1.0f64, 0.1, 123456.789, 1e-310, 1e300] {
        let (significand, exponent) = decode(x.to_bits());
        let scale = (2.0f64).powi(exponent as i32 - 1022) * (2.0f64).powi(-52);
        assert_eq!(significand as f64 * scale, x);
    }
}

#[test]
fn power_of_two_is_a_shift() {
    for k in 0..128u32 {
        assert_eq!(power_of_two(k), 1u128 << k);
    }
}

#[test]
fn bit_length_counts_bits() {
    assert_eq!(bit_length(0), 0);
    assert_eq!(bit_length(1), 1);
    assert_eq!(bit_length(2), 2);
    assert_eq!(bit_length(3), 2);
    assert_eq!(bit_length(255), 8);
    assert_eq!(bit_length(256), 9);
    assert_eq!(bit_length(TWO_127 - 1), 127);
    assert_eq!(bit_length(TWO_127), 128);
    assert_eq!(bit_length(u128::MAX), 128);
    for k in 0..128u32 {
        assert_eq!(bit_length(1u128 << k), k + 1);
        assert_eq!(bit_length((1u128 << k) | ((1u128 << k) - 1)), k + 1);
    }
}

#[test]
fn addition_and_multiplication_commute() {
    let patterns = samples();
    for &a in &patterns {
        for &b in &patterns {
            assert_eq!(sum(a, b), sum(b, a));
            assert_eq!(product(a, b), product(b, a));
        }
    }
    assert_eq!(sum(QUIET_NAN, ONE), sum(ONE, QUIET_NAN));
    assert_eq!(product(0xfff0_0000_0000_0001, TWO), product(TWO, 0xfff0_0000_0000_0001));
}

#[test]
fn one_and_zero_are_neutral() {
    for a in samples() {
        assert_eq!(product(a, ONE), a);
        assert_eq!(quotient(a, ONE), a);
        assert_eq!(sum(a, SIGN_BIT), a);
        if a != SIGN_BIT {
            assert_eq!(sum(a, POSITIVE_ZERO), a);
        }
    }
    assert_eq!(sum(SIGN_BIT, POSITIVE_ZERO), POSITIVE_ZERO);
}

#[test]
fn doubling_is_adding_a_number_to_itself() {
    for a in samples() {
        assert_eq!(helper_double(a), sum(a, a));
    }
    assert_eq!(helper_double(QUIET_NAN), sum(QUIET_NAN, QUIET_NAN));
}

#[test]
fn a_finite_number_less_itself_is_positive_zero() {
    for a in samples() {
        if a & 0x7fff_ffff_ffff_ffff < INFINITY {
            assert_eq!(difference(a, a), POSITIVE_ZERO);
        }
    }
    assert_eq!(difference(INFINITY, INFINITY), QUIET_NAN);
}

#[test]
fn results_are_the_same_on_every_call() {
    for a in samples() {
        let mut first = Calculator::new(a);
        let mut second = Calculator::new(a);
        assert_eq!(first.add(0.1f64.to_bits()), second.add(0.1f64.to_bits()));
        assert_eq!(first.multiply(3.0f64.to_bits()), second.multiply(3.0f64.to_bits()));
        assert_eq!(first.divide(7.0f64.to_bits()), second.divide(7.0f64.to_bits()));
        assert_eq!(first.subtract(1e10f64.to_bits()), second.subtract(1e10f64.to_bits()));
        assert_eq!(first.value, second.value);
    }
}

#[test]
fn every_invalid_operation_gives_the_quiet_nan() {
    assert_eq!(sum(INFINITY, INFINITY | SIGN_BIT), QUIET_NAN);
    assert_eq!(difference(INFINITY, INFINITY), QUIET_NAN);
    assert_eq!(product(POSITIVE_ZERO, INFINITY), QUIET_NAN);
    assert_eq!(product(INFINITY | SIGN_BIT, SIGN_BIT), QUIET_NAN);
    assert_eq!(quotient(POSITIVE_ZERO, SIGN_BIT), QUIET_NAN);
    assert_eq!(quotient(INFINITY, INFINITY), QUIET_NAN);
    assert_eq!(sum(0x7ff0_0000_0000_0001, ONE), QUIET_NAN);
    assert_eq!(product(ONE, 0xffff_ffff_ffff_ffff), QUIET_NAN);
    assert_eq!(quotient(0x7ff8_0000_dead_beef, ONE), QUIET_NAN);
}

#[test]
fn a_number_by_zero_is_an_infinity() {
    assert_eq!(quotient(ONE, POSITIVE_ZERO), INFINITY);
    assert_eq!(quotient(ONE, SIGN_BIT), INFINITY | SIGN_BIT);
    assert_eq!(quotient(ONE | SIGN_BIT, POSITIVE_ZERO), INFINITY | SIGN_BIT);
    assert_eq!(quotient(ONE, INFINITY), POSITIVE_ZERO);
    assert_eq!(quotient(INFINITY, TWO | SIGN_BIT), INFINITY | SIGN_BIT);
}
