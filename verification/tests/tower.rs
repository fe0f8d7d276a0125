use lisp_prims::error::{ArithmeticFailure, ConversionError};
use lisp_prims::number::{arith, NumberValue, MAX_FIXNUM, MIN_FIXNUM};
use num_bigint::BigInt;
use std::cmp::Ordering;

fn fix(n: i64) -> NumberValue {
    NumberValue::Int(n)
}

fn float(x: f64) -> NumberValue {
    NumberValue::Float(x.to_bits())
}

fn big(b: BigInt) -> NumberValue {
    NumberValue::Big(b)
}

fn two_to(k: u32) -> BigInt {
    BigInt::from(1u8) << k
}

fn first(a: i64, _b: i64) -> i64 {
    a
}

fn float_max(a: u64, b: u64) -> u64 {
    f64::from_bits(a).max(f64::from_bits(b)).to_bits()
}

fn big_gcd_like(a: BigInt, b: BigInt) -> BigInt {
    a * 2 + b
}

#[test]
fn fixnum_bounds_leave_eight_bits() {
    assert_eq!(MAX_FIXNUM, i64::MAX >> 8);
    assert_eq!(MIN_FIXNUM, i64::MIN >> 8);
}

#[test]
fn arith_follows_the_promotion_table() {
    let op = |a: NumberValue, b: NumberValue| arith(a, b, first, float_max, big_gcd_like);
    assert_eq!(op(fix(3), fix(4)), fix(3));
    assert_eq!(op(fix(3), float(4.5)), float(4.5));
    assert_eq!(op(float(4.5), fix(3)), float(4.5));
    assert_eq!(op(float(4.5), float(5.5)), float(5.5));
    assert_eq!(op(fix(3), big(two_to(70))), big(two_to(70) + 6));
    assert_eq!(op(big(two_to(70)), fix(3)), big(two_to(71) + 3));
    assert_eq!(op(big(two_to(70)), big(two_to(70))), big(two_to(70) * 3));
    assert_eq!(op(float(4.5), big(two_to(70))), float(2f64.powi(70)));
    assert_eq!(op(big(two_to(70)), float(4.5)), float(2f64.powi(70)));
}

#[test]
fn arith_keeps_a_small_big_result_big() {
    let r = big(two_to(70)).sub(big(two_to(70) - 1));
    assert_eq!(r, big(BigInt::from(1)));
    assert_eq!(r.coerce_integer(), Ok(fix(1)));
}

#[test]
fn big_to_double_saturates_in_arithmetic() {
    let huge = two_to(2000);
    assert_eq!(float(1.0).add(big(huge.clone())), float(f64::INFINITY));
    assert_eq!(big(-huge).add(float(1.0)), float(f64::NEG_INFINITY));
}

#[test]
fn zero_and_is_zero() {
    assert_eq!(NumberValue::zero(), fix(0));
    assert!(fix(0).is_zero());
    assert!(!fix(1).is_zero());
    assert!(float(0.0).is_zero());
    assert!(float(-0.0).is_zero());
    assert!(!float(f64::MIN_POSITIVE).is_zero());
    assert!(!float(f64::NAN).is_zero());
    assert!(big(BigInt::from(0)).is_zero());
    assert!(!big(two_to(70)).is_zero());
    assert!(fix(0).is_integer_zero());
    assert!(!float(0.0).is_integer_zero());
    assert!(big(BigInt::from(0)).is_integer_zero());
}

#[test]
fn neg_stays_in_the_variant() {
    assert_eq!(fix(5).neg(), fix(-5));
    assert_eq!(fix(i64::MIN).neg(), fix(i64::MIN));
    assert_eq!(float(2.5).neg(), float(-2.5));
    match float(0.0).neg() {
        NumberValue::Float(bits) => assert_eq!(bits, (-0.0f64).to_bits()),
        other => panic!("expected a double, got {:?}", other),
    }
    assert_eq!(big(two_to(70)).neg(), big(-two_to(70)));
}

#[test]
fn clone_keeps_the_value() {
    assert_eq!(fix(5).clone(), fix(5));
    assert_eq!(float(2.5).clone(), float(2.5));
    assert_eq!(big(two_to(70)).clone(), big(two_to(70)));
}

#[test]
fn coerce_integer_narrows_doubles() {
    assert_eq!(float(5.0).coerce_integer(), Ok(fix(5)));
    assert_eq!(float(-2.7).coerce_integer(), Ok(fix(-2)));
    assert_eq!(float(0.99).coerce_integer(), Ok(fix(0)));
    assert_eq!(float(-0.0).coerce_integer(), Ok(fix(0)));
    assert_eq!(float(4503599627370497.0).coerce_integer(), Ok(fix(4503599627370497)));
    assert_eq!(float(36028797018963960.0).coerce_integer(), Ok(fix(36028797018963960)));
    assert_eq!(float(-36028797018963968.0).coerce_integer(), Ok(fix(MIN_FIXNUM)));
}

#[test]
fn coerce_integer_widens_large_doubles() {
    assert_eq!(float(36028797018963968.0).coerce_integer(), Ok(big(two_to(55))));
    assert_eq!(float(-36028797018963976.0).coerce_integer(), Ok(big(-two_to(55) - 8)));
    assert_eq!(float(2f64.powi(63)).coerce_integer(), Ok(big(two_to(63))));
    assert_eq!(float(-(2f64.powi(63))).coerce_integer(), Ok(big(-two_to(63))));
    assert_eq!(float(2f64.powi(200) * 1.5).coerce_integer(), Ok(big(two_to(199) * 3)));
    let ten_to_30: BigInt = "1000000000000000019884624838656".parse().unwrap();
    assert_eq!(float(1e30).coerce_integer(), Ok(big(ten_to_30)));
    assert_eq!(float(f64::MAX).coerce_integer(), Ok(big((two_to(53) - 1) << 971u32)));
}

#[test]
fn coerce_integer_refuses_what_is_not_finite() {
    assert_eq!(float(f64::NAN).coerce_integer(), Err(ConversionError::NonFinite));
    assert_eq!(float(f64::INFINITY).coerce_integer(), Err(ConversionError::NonFinite));
    assert_eq!(float(f64::NEG_INFINITY).coerce_integer(), Err(ConversionError::NonFinite));
}

#[test]
fn coerce_integer_narrows_big_integers_that_fit() {
    assert_eq!(big(BigInt::from(5)).coerce_integer(), Ok(fix(5)));
    assert_eq!(big(BigInt::from(MAX_FIXNUM)).coerce_integer(), Ok(fix(MAX_FIXNUM)));
    assert_eq!(big(BigInt::from(MIN_FIXNUM)).coerce_integer(), Ok(fix(MIN_FIXNUM)));
    assert_eq!(big(BigInt::from(MAX_FIXNUM) + 1).coerce_integer(), Ok(big(two_to(55))));
    assert_eq!(big(BigInt::from(MIN_FIXNUM) - 1).coerce_integer(), Ok(big(-two_to(55) - 1)));
    assert_eq!(big(BigInt::from(i64::MAX)).coerce_integer(), Ok(big(BigInt::from(i64::MAX))));
    assert_eq!(big(two_to(70)).coerce_integer(), Ok(big(two_to(70))));
}

#[test]
fn coerce_integer_leaves_machine_integers() {
    assert_eq!(fix(5).coerce_integer(), Ok(fix(5)));
    assert_eq!(fix(i64::MAX).coerce_integer(), Ok(fix(i64::MAX)));
}

#[test]
fn round_trip_through_a_double() {
    for n in [0i64, 1, -1, 5, 255, -4096, 9007199254740991, -9007199254740991] {
        assert_eq!(float(n as f64).coerce_integer(), Ok(fix(n)));
    }
}

#[test]
fn number_operations() {
    assert_eq!(fix(7).add(fix(13)), fix(20));
    assert_eq!(fix(7).sub(fix(13)), fix(-6));
    assert_eq!(fix(7).mul(fix(13)), fix(91));
    assert_eq!(fix(7).div(fix(2)), Ok(fix(3)));
    assert_eq!(fix(7).rem(fix(2)), Ok(fix(1)));
    assert_eq!(float(7.0).div(float(2.0)), Ok(float(3.5)));
    assert_eq!(float(7.5).rem(float(2.0)), Ok(float(1.5)));
    assert_eq!(float(-7.5).rem(float(2.0)), Ok(float(-1.5)));
    assert_eq!(float(0.1).add(float(0.2)), float(0.1 + 0.2));
    assert_eq!(float(0.1).sub(float(0.3)), float(0.1 - 0.3));
    assert_eq!(float(0.1).mul(float(0.3)), float(0.1 * 0.3));
    assert_eq!(float(1.0).div(float(3.0)), Ok(float(1.0 / 3.0)));
    assert_eq!(big(two_to(70)).add(big(two_to(70))), big(two_to(71)));
    assert_eq!(big(two_to(70)).div(big(two_to(68))), Ok(big(BigInt::from(4))));
    assert_eq!(big(two_to(70) + 5).rem(big(two_to(68))), Ok(big(BigInt::from(5))));
    assert_eq!(big(-two_to(70) - 5).rem(big(two_to(68))), Ok(big(BigInt::from(-5))));
    assert_eq!(big(two_to(70)).div(big(BigInt::from(0))), Err(ArithmeticFailure::DivisionByZero));
    assert_eq!(big(two_to(70)).rem(fix(0)), Err(ArithmeticFailure::DivisionByZero));
    assert_eq!(fix(1).rem(big(BigInt::from(0))), Err(ArithmeticFailure::DivisionByZero));
}

#[test]
fn equality_of_representation() {
    assert_eq!(fix(1), fix(1));
    assert_ne!(fix(1), float(1.0));
    assert_ne!(fix(1), big(BigInt::from(1)));
    assert_eq!(float(0.0), float(-0.0));
    assert_ne!(float(f64::NAN), float(f64::NAN));
    assert_eq!(big(two_to(70)), big(two_to(70)));
    assert_ne!(big(two_to(70)), big(two_to(71)));
}

#[test]
fn equality_against_natives() {
    assert!(fix(3).eq_int(3));
    assert!(!fix(3).eq_int(4));
    assert!(float(3.0).eq_int(3));
    assert!(!float(3.5).eq_int(3));
    assert!(big(BigInt::from(3)).eq_int(3));
    assert!(fix(3).eq_float(3.0f64.to_bits()));
    assert!(float(1.0).eq_float(1.0f64.to_bits()));
    assert!(big(two_to(70)).eq_float(2f64.powi(70).to_bits()));
    assert!(!big(two_to(2000)).eq_float(f64::INFINITY.to_bits()));
    assert!(fix(3).eq_big(&BigInt::from(3)));
    assert!(float(2f64.powi(70)).eq_big(&two_to(70)));
    assert!(!float(f64::INFINITY).eq_big(&two_to(2000)));
    assert!(big(two_to(70)).eq_big(&two_to(70)));
    assert!(!big(two_to(70)).eq_big(&two_to(71)));
    assert!(fix(3).equals(&float(3.0)));
    assert!(!fix(3).equals(&float(3.0000001)));
}

#[test]
fn equality_of_doubles_allows_two_units() {
    let one = 1.0f64.to_bits();
    assert!(float(1.0).eq_float(one + 1));
    assert!(float(1.0).eq_float(one + 2));
    assert!(!float(1.0).eq_float(one + 3));
    assert!(float(1.0).eq_float(one - 2));
    assert!(!float(1.0).eq_float(one - 3));
    assert!(float(0.0).eq_float((-0.0f64).to_bits()));
    assert!(float(0.0).eq_float(1));
    assert!(float(-0.0).eq_float(2));
    assert!(!float(0.0).eq_float(3));
    assert!(!float(0.1 + 0.2).eq_float(0.4f64.to_bits()));
    assert!(float(0.1 + 0.2).eq_float(0.3f64.to_bits()));
    assert!(!float(f64::NAN).eq_float(f64::NAN.to_bits()));
}

#[test]
fn ordering_across_variants() {
    assert_eq!(fix(1).partial_cmp(&fix(2)), Some(Ordering::Less));
    assert_eq!(fix(2).partial_cmp(&fix(2)), Some(Ordering::Equal));
    assert_eq!(fix(3).partial_cmp(&fix(2)), Some(Ordering::Greater));
    assert_eq!(fix(1).partial_cmp(&float(1.5)), Some(Ordering::Less));
    assert_eq!(float(1.5).partial_cmp(&fix(1)), Some(Ordering::Greater));
    assert_eq!(fix(1).partial_cmp(&float(1.0)), Some(Ordering::Equal));
    assert_eq!(fix(1).partial_cmp(&big(two_to(70))), Some(Ordering::Less));
    assert_eq!(big(two_to(70)).partial_cmp(&fix(1)), Some(Ordering::Greater));
    assert_eq!(big(-two_to(70)).partial_cmp(&fix(1)), Some(Ordering::Less));
    assert_eq!(big(two_to(70)).partial_cmp(&big(two_to(70))), Some(Ordering::Equal));
    assert_eq!(big(two_to(70)).partial_cmp(&big(two_to(71))), Some(Ordering::Less));
    assert_eq!(big(two_to(70)).partial_cmp(&float(1e30)), Some(Ordering::Less));
    assert_eq!(float(1e30).partial_cmp(&big(two_to(70))), Some(Ordering::Greater));
    assert_eq!(float(2f64.powi(70)).partial_cmp(&big(two_to(70))), Some(Ordering::Equal));
    assert_eq!(float(-0.0).partial_cmp(&float(0.0)), Some(Ordering::Equal));
    assert_eq!(float(f64::NEG_INFINITY).partial_cmp(&float(f64::MIN)), Some(Ordering::Less));
    assert!(fix(1) < float(1.5));
    assert!(fix(2) >= float(1.5));
}

#[test]
fn ordering_has_gaps() {
    assert_eq!(float(f64::NAN).partial_cmp(&float(1.0)), None);
    assert_eq!(fix(1).partial_cmp(&float(f64::NAN)), None);
    assert_eq!(big(two_to(70)).partial_cmp(&float(f64::NAN)), None);
    assert_eq!(big(two_to(2000)).partial_cmp(&float(1.0)), None);
    assert_eq!(float(f64::INFINITY).partial_cmp(&big(two_to(2000))), None);
    assert_eq!(float(1.0).partial_cmp(&big(-two_to(2000))), None);
    assert!(!(big(two_to(2000)) > float(1.0)));
}
