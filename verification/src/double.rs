//! IEEE-754 binary64 values, held and reasoned about as their 64-bit patterns.
//!
//! A pattern is a sign bit, an 11-bit exponent field and a 52-bit fraction.
//! Every finite double is an integer multiple of 2^-1074, so its value is
//! modelled exactly by that integer multiple (`scaled_value`); the two
//! infinities are placed at plus and minus 2^1024 on the same scale.
use vstd::prelude::*;
use vstd::arithmetic::power2::{pow2, lemma_pow2_pos, lemma_pow2_unfold, lemma_pow2_strictly_increases};

verus! {

/// The sign bit of a pattern.
pub const SIGN_BIT: u64 = 0x8000_0000_0000_0000;

/// The pattern of positive infinity; larger magnitudes are NaNs.
pub const INFINITY_BITS: u64 = 0x7ff0_0000_0000_0000;

/// 2^52: the weight of the implicit leading bit of a normal significand.
pub const HIDDEN_BIT: u64 = 0x0010_0000_0000_0000;

/// The pattern with the sign bit cleared.
pub open spec fn magnitude(bits: u64) -> nat {
    (bits % SIGN_BIT) as nat
}

/// Whether the sign bit is set.
pub open spec fn spec_is_negative(bits: u64) -> bool {
    bits >= SIGN_BIT
}

/// An exponent field of all ones with a fraction that is not zero.
pub open spec fn spec_is_nan(bits: u64) -> bool {
    magnitude(bits) > INFINITY_BITS
}

/// An exponent field that is not all ones.
pub open spec fn spec_is_finite(bits: u64) -> bool {
    magnitude(bits) < INFINITY_BITS
}

/// An exponent field of all ones with a zero fraction.
pub open spec fn spec_is_infinite(bits: u64) -> bool {
    magnitude(bits) == INFINITY_BITS
}

/// Positive or negative zero.
pub open spec fn spec_is_zero(bits: u64) -> bool {
    magnitude(bits) == 0
}

/// The value denoted by a magnitude, in units of 2^-1074: the fraction for a
/// subnormal, the significand with its hidden bit shifted by the exponent
/// otherwise. The magnitude of infinity lands on 2^2098, that is 2^1024.
pub open spec fn scaled_magnitude(m: nat) -> nat {
    let e = m / (HIDDEN_BIT as nat);
    let f = m % (HIDDEN_BIT as nat);
    if e == 0 {
        f
    } else {
        ((HIDDEN_BIT + f) * pow2((e - 1) as nat)) as nat
    }
}

/// The signed value of a pattern that is not a NaN, in units of 2^-1074.
pub open spec fn scaled_value(bits: u64) -> int {
    if spec_is_negative(bits) {
        -(scaled_magnitude(magnitude(bits)) as int)
    } else {
        scaled_magnitude(magnitude(bits)) as int
    }
}

/// IEEE `<`: false when either side is a NaN, the order of the values otherwise.
pub open spec fn spec_less(a: u64, b: u64) -> bool {
    !spec_is_nan(a) && !spec_is_nan(b) && scaled_value(a) < scaled_value(b)
}

/// IEEE `==`: false when either side is a NaN; the two zeros are equal.
pub open spec fn spec_equal(a: u64, b: u64) -> bool {
    !spec_is_nan(a) && !spec_is_nan(b) && scaled_value(a) == scaled_value(b)
}

/// Where a pattern stands when the doubles are counted off along the number
/// line, both zeros at 0 and neighbouring doubles one apart.
pub open spec fn position(bits: u64) -> int {
    if spec_is_negative(bits) {
        -(magnitude(bits) as int)
    } else {
        magnitude(bits) as int
    }
}

/// Equality up to two units in the last place: neither side is a NaN and at
/// most two steps lie between them along the number line.
pub open spec fn spec_approx_equal(a: u64, b: u64) -> bool {
    !spec_is_nan(a) && !spec_is_nan(b) && -2 <= position(a) - position(b) <= 2
}

/// The pattern with its sign bit flipped.
pub open spec fn spec_negated(bits: u64) -> u64 {
    if bits >= SIGN_BIT {
        (bits - SIGN_BIT) as u64
    } else {
        (bits + SIGN_BIT) as u64
    }
}

/// Larger magnitudes denote larger values.
pub proof fn lemma_scaled_magnitude_increases(m1: nat, m2: nat)
    requires
        m1 < m2,
    ensures
        scaled_magnitude(m1) < scaled_magnitude(m2),
{
    let h = HIDDEN_BIT as nat;
    let e1 = m1 / h;
    let f1 = m1 % h;
    let e2 = m2 / h;
    let f2 = m2 % h;
    assert(m1 == h * e1 + f1) by {
        vstd::arithmetic::div_mod::lemma_fundamental_div_mod(m1 as int, h as int);
    }
    assert(m2 == h * e2 + f2) by {
        vstd::arithmetic::div_mod::lemma_fundamental_div_mod(m2 as int, h as int);
    }
    assert(e1 <= e2) by {
        vstd::arithmetic::div_mod::lemma_div_is_ordered(m1 as int, m2 as int, h as int);
    }
    if e1 == e2 {
        assert(f1 < f2);
        if e1 != 0 {
            let p = pow2((e1 - 1) as nat);
            lemma_pow2_pos((e1 - 1) as nat);
            assert((h + f1) * p < (h + f2) * p) by (nonlinear_arith)
                requires
                    f1 < f2,
                    p > 0,
            ;
        }
    } else {
        let above = pow2((e2 - 1) as nat);
        lemma_pow2_pos((e2 - 1) as nat);
        assert(h * above <= (h + f2) * above) by (nonlinear_arith)
            requires
                above > 0,
                f2 >= 0,
        ;
        if e1 == 0 {
            assert(h * 1 <= h * above) by (nonlinear_arith)
                requires
                    above >= 1,
            ;
        } else {
            let below = pow2((e1 - 1) as nat);
            lemma_pow2_pos((e1 - 1) as nat);
            lemma_pow2_unfold(e1);
            assert(pow2(e1) == 2 * below);
            if e1 < e2 - 1 {
                lemma_pow2_strictly_increases(e1, (e2 - 1) as nat);
            }
            assert(pow2(e1) <= above);
            assert((h + f1) * below < h * (2 * below)) by (nonlinear_arith)
                requires
                    f1 < h,
                    below > 0,
            ;
            assert(h * (2 * below) <= h * above) by (nonlinear_arith)
                requires
                    2 * below <= above,
            ;
        }
    }
}

/// Magnitudes and the values they denote are ordered alike.
pub proof fn lemma_scaled_magnitude_order(m1: nat, m2: nat)
    ensures
        m1 < m2 <==> scaled_magnitude(m1) < scaled_magnitude(m2),
        m1 == m2 <==> scaled_magnitude(m1) == scaled_magnitude(m2),
        m1 == 0 <==> scaled_magnitude(m1) == 0,
{
    if m1 < m2 {
        lemma_scaled_magnitude_increases(m1, m2);
    }
    if m2 < m1 {
        lemma_scaled_magnitude_increases(m2, m1);
    }
    if 0 < m1 {
        lemma_scaled_magnitude_increases(0, m1);
    }
    assert(scaled_magnitude(0) == 0);
}

/// Whether the sign bit is set, as it is for negative zero and may be for a NaN.
pub fn is_negative(bits: u64) -> (r: bool)
    ensures
        r == spec_is_negative(bits),
{
    bits >= SIGN_BIT
}

/// Whether the pattern is a NaN.
pub fn is_nan(bits: u64) -> (r: bool)
    ensures
        r == spec_is_nan(bits),
{
    bits % SIGN_BIT > INFINITY_BITS
}

/// Whether the pattern is neither an infinity nor a NaN.
pub fn is_finite(bits: u64) -> (r: bool)
    ensures
        r == spec_is_finite(bits),
{
    bits % SIGN_BIT < INFINITY_BITS
}

/// Whether the pattern is one of the two zeros.
pub fn is_zero(bits: u64) -> (r: bool)
    ensures
        r == spec_is_zero(bits),
        r == spec_equal(bits, 0),
{
    proof {
        lemma_scaled_magnitude_order(magnitude(bits), 0);
    }
    bits % SIGN_BIT == 0
}

/// Flips the sign, of NaNs and zeros too.
pub fn negated(bits: u64) -> (r: u64)
    ensures
        r == spec_negated(bits),
        magnitude(r) == magnitude(bits),
        spec_is_negative(r) == !spec_is_negative(bits),
{
    if bits >= SIGN_BIT {
        bits - SIGN_BIT
    } else {
        bits + SIGN_BIT
    }
}

/// IEEE `<` on patterns.
pub fn less(a: u64, b: u64) -> (r: bool)
    ensures
        r == spec_less(a, b),
{
    let ma: u64 = a % SIGN_BIT;
    let mb: u64 = b % SIGN_BIT;
    proof {
        lemma_scaled_magnitude_order(ma as nat, mb as nat);
        lemma_scaled_magnitude_order(mb as nat, ma as nat);
        lemma_scaled_magnitude_order(ma as nat, 0);
        lemma_scaled_magnitude_order(mb as nat, 0);
    }
    if ma > INFINITY_BITS || mb > INFINITY_BITS {
        false
    } else if a >= SIGN_BIT {
        if b >= SIGN_BIT {
            mb < ma
        } else {
            ma != 0 || mb != 0
        }
    } else {
        b < SIGN_BIT && ma < mb
    }
}

/// IEEE `==` on patterns.
pub fn equal(a: u64, b: u64) -> (r: bool)
    ensures
        r == spec_equal(a, b),
{
    let ma: u64 = a % SIGN_BIT;
    let mb: u64 = b % SIGN_BIT;
    proof {
        lemma_scaled_magnitude_order(ma as nat, mb as nat);
        lemma_scaled_magnitude_order(ma as nat, 0);
        lemma_scaled_magnitude_order(mb as nat, 0);
    }
    if ma > INFINITY_BITS || mb > INFINITY_BITS {
        false
    } else if (a >= SIGN_BIT) == (b >= SIGN_BIT) {
        ma == mb
    } else {
        ma == 0 && mb == 0
    }
}

/// Equality up to two units in the last place.
pub fn approx_equal(a: u64, b: u64) -> (r: bool)
    ensures
        r == spec_approx_equal(a, b),
{
    let ma: u64 = a % SIGN_BIT;
    let mb: u64 = b % SIGN_BIT;
    if ma > INFINITY_BITS || mb > INFINITY_BITS {
        false
    } else if (a >= SIGN_BIT) == (b >= SIGN_BIT) {
        if ma >= mb {
            ma - mb <= 2
        } else {
            mb - ma <= 2
        }
    } else {
        ma + mb <= 2
    }
}

} // verus!
