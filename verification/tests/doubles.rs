use float_cmp::ApproxEq;
use lisp_prims::convert;
use lisp_prims::double;
use lisp_prims::integer;
use lisp_prims::number::NumberValue;
use num_bigint::BigInt;
use num_traits::ToPrimitive;

fn samples() -> Vec<f64> {
    vec![
        0.0,
        -0.0,
        1.0,
        -1.0,
        0.5,
        1.5,
        2.5,
        -2.5,
        0.1,
        0.3,
        1e-320,
        -1e-320,
        5e-324,
        f64::MIN_POSITIVE,
        f64::EPSILON,
        4503599627370496.0,
        9007199254740992.0,
        9007199254740994.0,
        1e30,
        -1e30,
        1e300,
        f64::MAX,
        f64::MIN,
        f64::INFINITY,
        f64::NEG_INFINITY,
        f64::NAN,
    ]
}

#[test]
fn classification_matches_the_hardware() {
    for x in samples() {
        let bits = x.to_bits();
        assert_eq!(double::is_nan(bits), x.is_nan(), "{x}");
        assert_eq!(double::is_finite(bits), x.is_finite(), "{x}");
        assert_eq!(double::is_negative(bits), x.is_sign_negative(), "{x}");
        assert_eq!(double::is_zero(bits), x == 0.0, "{x}");
        assert_eq!(double::negated(bits), (-x).to_bits(), "{x}");
    }
}

#[test]
fn comparison_matches_the_hardware() {
    for x in samples() {
        for y in samples() {
            assert_eq!(double::less(x.to_bits(), y.to_bits()), x < y, "{x} < {y}");
            assert_eq!(double::equal(x.to_bits(), y.to_bits()), x == y, "{x} == {y}");
        }
    }
}

#[test]
fn approx_equal_counts_units_in_the_last_place() {
    for x in samples() {
        for y in samples() {
            if x.is_nan() || y.is_nan() || x.is_sign_negative() != y.is_sign_negative() {
                continue;
            }
            let expected = x.approx_eq(y, (0.0, 2));
            assert_eq!(double::approx_equal(x.to_bits(), y.to_bits()), expected, "{x} ~ {y}");
        }
    }
    assert!(double::approx_equal(f64::MAX.to_bits(), f64::INFINITY.to_bits() - 2));
    assert!(double::approx_equal(1, 0x8000_0000_0000_0001));
    assert!(!double::approx_equal(2, 0x8000_0000_0000_0001));
    assert!(!double::approx_equal(f64::NAN.to_bits(), f64::NAN.to_bits()));
}

#[test]
fn from_i64_rounds_to_nearest_even() {
    let cases: [i64; 24] = [
        0,
        1,
        -1,
        2,
        3,
        255,
        -4096,
        (1 << 52) + 1,
        (1 << 53) - 1,
        1 << 53,
        (1 << 53) + 1,
        (1 << 53) + 2,
        (1 << 53) + 3,
        -((1 << 53) + 1),
        (1 << 54) + 2,
        (1 << 54) + 6,
        (1 << 55) - 1,
        -(1 << 55),
        (1 << 62) + (1 << 9),
        (1 << 62) + (1 << 9) + 1,
        i64::MAX,
        i64::MAX - 511,
        i64::MIN,
        i64::MIN + 1,
    ];
    for n in cases {
        assert_eq!(convert::from_i64(n), (n as f64).to_bits(), "{n}");
    }
    assert_eq!(convert::from_i64((1 << 53) + 1), 0x4340_0000_0000_0000);
    assert_eq!(convert::from_i64((1 << 53) + 3), 0x4340_0000_0000_0002);
    assert_eq!(convert::from_i64(i64::MAX), 0x43e0_0000_0000_0000);
}

#[test]
fn from_big_rounds_to_nearest_even() {
    let one = BigInt::from(1u8);
    let mut cases: Vec<BigInt> = vec![
        BigInt::from(0),
        BigInt::from(1),
        BigInt::from(-1),
        BigInt::from(u64::MAX),
        BigInt::from(i64::MIN),
        (&one << 64u32) + 1,
        (&one << 64u32) + (&one << 11u32),
        (&one << 64u32) + (&one << 11u32) + 1,
        (&one << 64u32) + (&one << 12u32) + (&one << 11u32),
        (&one << 70u32) + 1,
        (&one << 200u32) - 1,
        (&one << 200u32) + (&one << 147u32),
        (&one << 200u32) + (&one << 147u32) + 1,
        (&one << 200u32) + (&one << 148u32) + (&one << 147u32),
        (&one << 1023u32),
        ((&one << 53u32) - 1) << 971u32,
        (&one << 1024u32) - 1,
        (&one << 1024u32) - (&one << 970u32) - 1,
        (&one << 1024u32) - (&one << 970u32),
        (&one << 1024u32),
        (&one << 1025u32) + 7,
        (&one << 3000u32),
    ];
    let negated: Vec<BigInt> = cases.iter().map(|b| -b).collect();
    cases.extend(negated);
    for b in cases {
        assert_eq!(convert::from_big(&b), b.to_f64().unwrap().to_bits(), "{b}");
    }
    assert_eq!(convert::from_big(&(&one << 1024u32)), f64::INFINITY.to_bits());
    assert_eq!(convert::from_big(&-(&one << 1024u32)), f64::NEG_INFINITY.to_bits());
    assert_eq!(convert::from_big(&((&one << 70u32) + 1)), 2f64.powi(70).to_bits());
}

#[test]
fn truncation_matches_the_hardware() {
    for x in samples() {
        let expected = if x.is_finite() && x >= -9223372036854775808.0 && x < 9223372036854775808.0 {
            Some(x as i64)
        } else {
            None
        };
        assert_eq!(convert::truncated_i64(x.to_bits()), expected, "{x}");
    }
    assert_eq!(convert::truncated_i64(2.999f64.to_bits()), Some(2));
    assert_eq!(convert::truncated_i64((-2.999f64).to_bits()), Some(-2));
    assert_eq!(convert::truncated_i64((-9223372036854775808.0f64).to_bits()), Some(i64::MIN));
    assert_eq!(convert::truncated_i64(9223372036854775808.0f64.to_bits()), None);
    assert_eq!(convert::truncated_i64(9223372036854774784.0f64.to_bits()), Some(9223372036854774784));
}

#[test]
fn big_from_double_is_the_integer_part() {
    assert_eq!(convert::big_from_double(0.75f64.to_bits()), BigInt::from(0));
    assert_eq!(convert::big_from_double(2.75f64.to_bits()), BigInt::from(2));
    assert_eq!(convert::big_from_double((-2.75f64).to_bits()), BigInt::from(-2));
    assert_eq!(convert::big_from_double(2f64.powi(80).to_bits()), BigInt::from(1u8) << 80u32);
    assert_eq!(convert::big_from_double(5e-324f64.to_bits()), BigInt::from(0));
    assert_eq!(
        convert::big_from_double(f64::MAX.to_bits()),
        ((BigInt::from(1u8) << 53u32) - 1) << 971u32
    );
}

#[test]
fn bit_length_and_powers() {
    assert_eq!(convert::bit_length_u64(0), 0);
    assert_eq!(convert::bit_length_u64(1), 1);
    assert_eq!(convert::bit_length_u64(255), 8);
    assert_eq!(convert::bit_length_u64(256), 9);
    assert_eq!(convert::bit_length_u64(u64::MAX), 64);
    assert_eq!(convert::pow2_u64(0), 1);
    assert_eq!(convert::pow2_u64(10), 1024);
    assert_eq!(convert::pow2_u64(63), 1 << 63);
}

#[test]
fn float_operations_match_the_hardware() {
    for x in samples() {
        for y in samples() {
            let left = || NumberValue::Float(x.to_bits());
            let right = || NumberValue::Float(y.to_bits());
            let check = |name: &str, got: NumberValue, want: f64| match got {
                NumberValue::Float(bits) if want.is_nan() => {
                    assert!(f64::from_bits(bits).is_nan(), "{x} {name} {y}")
                }
                NumberValue::Float(bits) => assert_eq!(bits, want.to_bits(), "{x} {name} {y}"),
                other => panic!("{x} {name} {y} gave {:?}", other),
            };
            check("+", left().add(right()), x + y);
            check("-", left().sub(right()), x - y);
            check("*", left().mul(right()), x * y);
            check("/", left().div(right()).unwrap(), x / y);
            check("%", left().rem(right()).unwrap(), x % y);
        }
    }
}

#[test]
fn integer_operations_wrap() {
    assert_eq!(integer::int_add(i64::MAX, 1), i64::MIN);
    assert_eq!(integer::int_add(2, 3), 5);
    assert_eq!(integer::int_sub(i64::MIN, 1), i64::MAX);
    assert_eq!(integer::int_mul(i64::MIN, -1), i64::MIN);
    assert_eq!(integer::int_mul(1 << 32, 1 << 32), 0);
    assert_eq!(integer::int_div(-7, 2), -3);
    assert_eq!(integer::int_div(i64::MIN, -1), i64::MIN);
    assert_eq!(integer::int_rem(-7, 2), -1);
    assert_eq!(integer::int_rem(7, -2), 1);
    assert_eq!(integer::int_rem(i64::MIN, -1), 0);
    assert_eq!(integer::int_neg(5), -5);
    assert_eq!(integer::int_neg(i64::MIN), i64::MIN);
}

#[test]
fn conversions_agree_with_the_hardware_on_a_sweep() {
    let mut state: u64 = 0x9E37_79B9_7F4A_7C15;
    let mut next = move || {
        state ^= state << 13;
        state ^= state >> 7;
        state ^= state << 17;
        state
    };
    for _ in 0..20000 {
        let a = next();
        let b = next();
        let n = (a as i64) >> (b % 64);
        assert_eq!(convert::from_i64(n), (n as f64).to_bits(), "{n}");
        let (x, y) = (f64::from_bits(a), f64::from_bits(b));
        assert_eq!(double::less(a, b), x < y, "{a:#x} < {b:#x}");
        assert_eq!(double::equal(a, b), x == y, "{a:#x} == {b:#x}");
        let wide = (BigInt::from(a) << (b % 1100)) + BigInt::from(b);
        assert_eq!(convert::from_big(&wide), wide.to_f64().unwrap().to_bits(), "{wide}");
        let negative = -wide;
        assert_eq!(convert::from_big(&negative), negative.to_f64().unwrap().to_bits(), "{negative}");
        if x.is_finite() {
            let whole = convert::big_from_double(a);
            assert_eq!(convert::from_big(&whole), x.trunc().to_bits() & !(1 << 63) | (whole.sign() == num_bigint::Sign::Minus) as u64 * (1 << 63), "{x}");
        }
    }
}
