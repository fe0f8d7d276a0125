use lisp_prims::arith;
use lisp_prims::arith::Relation;
use lisp_prims::error::ArithmeticFailure;
use lisp_prims::number::NumberValue;
use num_bigint::BigInt;

fn fix(n: i64) -> NumberValue {
    NumberValue::Int(n)
}

fn float(x: f64) -> NumberValue {
    NumberValue::Float(x.to_bits())
}

fn big(b: BigInt) -> NumberValue {
    NumberValue::Big(b)
}

fn two_to(k: u32) -> BigInt {
    BigInt::from(1u8) << k
}

#[test]
fn test_add() {
    assert_eq!(arith::add(&[]), NumberValue::Int(0));
    assert_eq!(arith::add(&[fix(7), fix(13)]), NumberValue::Int(20));
    assert_eq!(arith::add(&[fix(1), float(2.5)]), float(3.5));
    assert_eq!(arith::add(&[fix(0), fix(-1)]), NumberValue::Int(-1));
}

#[test]
fn test_sub() {
    assert_eq!(arith::sub(None, &[]), NumberValue::Int(0));
    assert_eq!(arith::sub(Some(fix(7)), &[]), NumberValue::Int(-7));
    assert_eq!(arith::sub(Some(fix(7)), &[fix(13)]), NumberValue::Int(-6));
    assert_eq!(arith::sub(Some(fix(0)), &[fix(-1)]), NumberValue::Int(1));
}

#[test]
fn test_mul() {
    assert_eq!(arith::mul(&[]), NumberValue::Int(1));
    assert_eq!(arith::mul(&[fix(7), fix(13)]), NumberValue::Int(91));
    assert_eq!(arith::mul(&[fix(-1), fix(1)]), NumberValue::Int(-1));
}

#[test]
fn test_div() {
    assert_eq!(arith::div(float(12.0), &[]), Ok(float(12.0)));
    assert_eq!(arith::div(fix(12), &[fix(5), fix(2)]), Ok(NumberValue::Int(1)));
}

#[test]
fn test_eq() {
    assert!(arith::num_eq(fix(1), &[]));
    assert!(arith::num_eq(fix(1), &[float(1.0)]));
    assert!(arith::num_eq(float(1.0), &[fix(1)]));
    assert!(!arith::num_eq(float(1.0), &[fix(1), fix(1), float(1.1)]));
}

#[test]
fn test_cmp() {
    assert!(arith::less_than(fix(1), &[]));
    assert!(arith::less_than(fix(1), &[float(1.1)]));
    assert!(!arith::less_than(float(1.0), &[fix(1)]));
    assert!(arith::less_than(float(1.0), &[float(1.1), fix(2), float(2.1)]));
}

#[test]
fn test_max_min() {
    assert_eq!(arith::max(float(1.0), &[float(2.1), float(1.1), float(1.0)]), float(2.1));
    assert_eq!(arith::min(float(1.1), &[float(1.0), float(2.1), float(1.0)]), float(1.0));
}

#[test]
fn test_other() {
    assert_eq!(arith::logand(&[258, 255]), 2);
}

#[test]
fn add_promotes_along_the_way() {
    let r = arith::add(&[fix(1), big(two_to(70)), float(0.5)]);
    assert_eq!(r, float(2f64.powi(70) + 0.5));
    let r = arith::add(&[fix(5), big(two_to(70))]);
    assert_eq!(r, big(two_to(70) + 5));
}

#[test]
fn add_wraps_at_64_bits() {
    assert_eq!(arith::add(&[fix(i64::MAX), fix(1)]), fix(i64::MIN));
    assert_eq!(arith::sub(Some(fix(i64::MIN)), &[fix(1)]), fix(i64::MAX));
    assert_eq!(arith::sub(Some(fix(i64::MIN)), &[]), fix(i64::MIN));
    assert_eq!(arith::mul(&[fix(i64::MAX), fix(2)]), fix(-2));
}

#[test]
fn sub_folds_from_the_left() {
    assert_eq!(arith::sub(Some(fix(10)), &[fix(1), fix(2), fix(3)]), fix(4));
    assert_eq!(arith::sub(Some(float(1.5)), &[]), float(-1.5));
    assert_eq!(arith::sub(Some(big(two_to(70))), &[]), big(-two_to(70)));
    assert_eq!(arith::sub(Some(big(two_to(70))), &[big(two_to(69))]), big(two_to(69)));
}

#[test]
fn mul_of_big_integers_is_exact() {
    assert_eq!(arith::mul(&[big(two_to(70)), big(two_to(70))]), big(two_to(140)));
    assert_eq!(arith::mul(&[fix(3), big(two_to(70))]), big(two_to(70) * 3));
    assert_eq!(arith::mul(&[float(1.5), fix(2)]), float(3.0));
}

#[test]
fn div_without_divisors_returns_the_number() {
    assert_eq!(arith::div(fix(7), &[]), Ok(fix(7)));
    assert_eq!(arith::div(big(two_to(70)), &[]), Ok(big(two_to(70))));
    assert_eq!(arith::div(float(-0.0), &[]).map(|v| format!("{:?}", v)), Ok(format!("{:?}", float(-0.0))));
}

#[test]
fn div_by_integer_zero_fails() {
    for x in [0i64, 1, -1, 12, i64::MAX, i64::MIN] {
        assert_eq!(arith::div(fix(x), &[fix(0)]), Err(ArithmeticFailure::DivisionByZero));
    }
    assert_eq!(arith::div(big(two_to(70)), &[fix(0)]), Err(ArithmeticFailure::DivisionByZero));
    assert_eq!(arith::div(fix(1), &[big(BigInt::from(0))]), Err(ArithmeticFailure::DivisionByZero));
    assert_eq!(arith::div(fix(12), &[fix(3), fix(0), fix(2)]), Err(ArithmeticFailure::DivisionByZero));
}

#[test]
fn div_with_a_double_follows_ieee() {
    assert_eq!(arith::div(float(1.0), &[fix(0)]), Ok(float(f64::INFINITY)));
    assert_eq!(arith::div(fix(-1), &[float(0.0)]), Ok(float(f64::NEG_INFINITY)));
    assert_eq!(arith::div(fix(1), &[float(4.0)]), Ok(float(0.25)));
    match arith::div(float(0.0), &[fix(0)]) {
        Ok(NumberValue::Float(bits)) => assert!(f64::from_bits(bits).is_nan()),
        other => panic!("expected a NaN, got {:?}", other),
    }
}

#[test]
fn div_rounds_toward_zero() {
    assert_eq!(arith::div(fix(-7), &[fix(2)]), Ok(fix(-3)));
    assert_eq!(arith::div(fix(7), &[fix(-2)]), Ok(fix(-3)));
    assert_eq!(arith::div(fix(i64::MIN), &[fix(-1)]), Ok(fix(i64::MIN)));
    assert_eq!(arith::div(big(-two_to(70)), &[fix(3)]), Ok(big(-(two_to(70) / BigInt::from(3)))));
}

#[test]
fn add_one_and_sub_one() {
    assert_eq!(arith::add_one(fix(41)), fix(42));
    assert_eq!(arith::sub_one(fix(43)), fix(42));
    assert_eq!(arith::add_one(float(0.5)), float(1.5));
    assert_eq!(arith::sub_one(big(two_to(70))), big(two_to(70) - 1));
}

#[test]
fn num_eq_compares_against_the_first() {
    assert!(arith::num_eq(fix(3), &[fix(3), float(3.0), big(BigInt::from(3))]));
    assert!(!arith::num_eq(fix(3), &[fix(3), fix(4)]));
    assert!(arith::num_eq(big(two_to(70)), &[float(2f64.powi(70))]));
    assert!(!arith::num_eq(float(f64::NAN), &[float(f64::NAN)]));
}

#[test]
fn num_ne_compares_against_the_first() {
    assert!(arith::num_ne(fix(3), &[]));
    assert!(arith::num_ne(fix(3), &[fix(4), float(5.0)]));
    assert!(!arith::num_ne(fix(3), &[fix(4), fix(3)]));
    assert!(arith::num_ne(float(f64::NAN), &[float(f64::NAN)]));
}

#[test]
fn chain_checks_adjacent_pairs() {
    assert!(arith::less_than(fix(1), &[fix(2), fix(3)]));
    assert!(!arith::less_than(fix(1), &[fix(3), fix(2)]));
    assert!(arith::greater_than(fix(3), &[fix(2), fix(1)]));
    assert!(!arith::greater_than(fix(3), &[fix(1), fix(2)]));
    assert!(arith::less_than_or_eq(fix(1), &[fix(1), float(1.0), fix(2)]));
    assert!(!arith::less_than_or_eq(fix(1), &[fix(2), fix(1)]));
    assert!(arith::greater_than_or_eq(fix(2), &[float(2.0), fix(1)]));
    assert!(!arith::greater_than_or_eq(fix(2), &[fix(3)]));
    assert!(arith::chain(Relation::Less, &fix(1), &[big(two_to(70))]));
}

#[test]
fn chain_with_a_nan_does_not_hold() {
    assert!(!arith::less_than(fix(1), &[float(f64::NAN)]));
    assert!(!arith::greater_than_or_eq(float(f64::NAN), &[float(f64::NAN)]));
    assert!(arith::less_than(float(f64::NAN), &[]));
}

#[test]
fn holds_each_relation() {
    assert!(arith::holds(Relation::Less, &fix(1), &fix(2)));
    assert!(!arith::holds(Relation::Less, &fix(2), &fix(2)));
    assert!(arith::holds(Relation::LessOrEqual, &fix(2), &fix(2)));
    assert!(arith::holds(Relation::Greater, &fix(3), &fix(2)));
    assert!(arith::holds(Relation::GreaterOrEqual, &fix(2), &fix(2)));
    assert!(!arith::holds(Relation::GreaterOrEqual, &fix(1), &fix(2)));
}

#[test]
fn max_and_min_take_the_later_on_a_tie() {
    assert_eq!(arith::max(fix(1), &[fix(1)]), fix(1));
    assert_eq!(arith::max(fix(1), &[float(1.0)]), float(1.0));
    assert_eq!(arith::max(float(1.0), &[fix(1)]), fix(1));
    assert_eq!(arith::min(fix(1), &[float(1.0)]), float(1.0));
    assert_eq!(arith::max(fix(5), &[]), fix(5));
    assert_eq!(arith::min(fix(5), &[fix(7), fix(3), fix(4)]), fix(3));
    assert_eq!(arith::max_val(fix(2), &fix(1)), fix(2));
    assert_eq!(arith::min_val(fix(2), &fix(1)), fix(1));
}

#[test]
fn logior_and_logand() {
    assert_eq!(arith::logior(&[]), 0);
    assert_eq!(arith::logand(&[]), -1);
    assert_eq!(arith::logior(&[1, 2, 8]), 11);
    assert_eq!(arith::logior(&[-1, 5]), -1);
    assert_eq!(arith::logand(&[12, 10]), 8);
    assert_eq!(arith::logand(&[-1, 7]), 7);
}

#[test]
fn modulo_and_remainder() {
    assert_eq!(arith::modulo(fix(7), fix(3)), Ok(fix(1)));
    assert_eq!(arith::modulo(fix(-7), fix(3)), Ok(fix(-1)));
    assert_eq!(arith::modulo(fix(7), fix(-3)), Ok(fix(1)));
    assert_eq!(arith::modulo(fix(7), fix(0)), Err(ArithmeticFailure::DivisionByZero));
    assert_eq!(arith::modulo(float(7.5), fix(2)), Ok(float(1.5)));
    assert_eq!(arith::modulo(big(two_to(70) + 1), fix(2)), Ok(big(BigInt::from(1))));
    assert_eq!(arith::remainder(7, 3), Ok(1));
    assert_eq!(arith::remainder(-7, 3), Ok(-1));
    assert_eq!(arith::remainder(i64::MIN, -1), Ok(0));
    assert_eq!(arith::remainder(7, 0), Err(ArithmeticFailure::DivisionByZero));
}
