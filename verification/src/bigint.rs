//! The arbitrary-precision integers of the tower, taken from `num_bigint`.
//!
//! What such an integer holds is opaque to the verifier. This module names
//! the mathematical integer that a `BigInt` denotes and states, operation by
//! operation, what the library relies on. None of these statements is proved:
//! each is a reading of the `num_bigint` sources.
use vstd::prelude::*;
use vstd::arithmetic::power2::pow2;
use num_bigint::BigInt;
use crate::convert::bit_length;
use crate::integer::{trunc_div, trunc_rem};

verus! {

#[verifier::external_type_specification]
#[verifier::external_body]
pub struct ExBigInt(BigInt);

/// The mathematical integer that a `BigInt` denotes.
pub uninterp spec fn big_value(b: BigInt) -> int;

/// The absolute value of an integer.
pub open spec fn abs(v: int) -> nat {
    if v < 0 {
        (-v) as nat
    } else {
        v as nat
    }
}

/// `BigInt::from(i64)`: the big integer with the value of `n`.
#[verifier::external_body]
pub(crate) fn big_from_i64(n: i64) -> (r: BigInt)
    ensures
        big_value(r) == n,
{
    BigInt::from(n)
}

/// `BigInt::from(u64)`: the big integer with the value of `n`.
#[verifier::external_body]
pub(crate) fn big_from_u64(n: u64) -> (r: BigInt)
    ensures
        big_value(r) == n,
{
    BigInt::from(n)
}

/// `Clone::clone` of `BigInt`: a copy that denotes the same integer.
#[verifier::external_body]
pub(crate) fn big_clone(a: &BigInt) -> (r: BigInt)
    ensures
        big_value(r) == big_value(*a),
{
    a.clone()
}

/// `BigInt + BigInt`: the exact sum.
#[verifier::external_body]
pub(crate) fn big_add(a: BigInt, b: BigInt) -> (r: BigInt)
    ensures
        big_value(r) == big_value(a) + big_value(b),
{
    a + b
}

/// `BigInt - BigInt`: the exact difference.
#[verifier::external_body]
pub(crate) fn big_sub(a: BigInt, b: BigInt) -> (r: BigInt)
    ensures
        big_value(r) == big_value(a) - big_value(b),
{
    a - b
}

/// `BigInt * BigInt`: the exact product.
#[verifier::external_body]
pub(crate) fn big_mul(a: BigInt, b: BigInt) -> (r: BigInt)
    ensures
        big_value(r) == big_value(a) * big_value(b),
{
    a * b
}

/// `BigInt / BigInt`: the quotient rounded toward zero. The outside
/// function panics on a zero divisor, which the precondition leaves out.
#[verifier::external_body]
pub(crate) fn big_div(a: BigInt, b: BigInt) -> (r: BigInt)
    requires
        big_value(b) != 0,
    ensures
        big_value(r) == trunc_div(big_value(a), big_value(b)),
{
    a / b
}

/// `BigInt % BigInt`: the remainder of the division rounded toward zero,
/// which has the sign of the dividend. The outside function panics on a zero
/// divisor, which the precondition leaves out.
#[verifier::external_body]
pub(crate) fn big_rem(a: BigInt, b: BigInt) -> (r: BigInt)
    requires
        big_value(b) != 0,
    ensures
        big_value(r) == trunc_rem(big_value(a), big_value(b)),
{
    a % b
}

/// `Neg::neg` of `BigInt`: the integer with the opposite sign.
#[verifier::external_body]
pub(crate) fn big_neg(a: BigInt) -> (r: BigInt)
    ensures
        big_value(r) == -big_value(a),
{
    -a
}

/// `Zero::is_zero` of `BigInt`.
#[verifier::external_body]
pub(crate) fn big_is_zero(a: &BigInt) -> (r: bool)
    ensures
        r == (big_value(*a) == 0),
{
    num_traits::Zero::is_zero(a)
}

/// `Signed::is_negative` of `BigInt`.
#[verifier::external_body]
pub(crate) fn big_is_negative(a: &BigInt) -> (r: bool)
    ensures
        r == (big_value(*a) < 0),
{
    num_traits::Signed::is_negative(a)
}

/// `PartialEq::eq` of `BigInt`: whether both denote the same integer.
#[verifier::external_body]
pub(crate) fn big_eq(a: &BigInt, b: &BigInt) -> (r: bool)
    ensures
        r == (big_value(*a) == big_value(*b)),
{
    a == b
}

/// `PartialOrd::lt` of `BigInt`: the order of the integers.
#[verifier::external_body]
pub(crate) fn big_less(a: &BigInt, b: &BigInt) -> (r: bool)
    ensures
        r == (big_value(*a) < big_value(*b)),
{
    a < b
}

/// `ToPrimitive::to_i64` of `BigInt`: the value where it fits in 64 signed
/// bits, and nothing otherwise.
#[verifier::external_body]
pub(crate) fn big_to_i64(a: &BigInt) -> (r: Option<i64>)
    ensures
        r == (if i64::MIN <= big_value(*a) <= i64::MAX {
            Some(big_value(*a) as i64)
        } else {
            None
        }),
{
    num_traits::ToPrimitive::to_i64(a)
}

/// `ToPrimitive::to_u64` of `BigInt`: the value where it fits in 64 unsigned
/// bits, and nothing otherwise.
#[verifier::external_body]
pub(crate) fn big_to_u64(a: &BigInt) -> (r: Option<u64>)
    ensures
        r == (if 0 <= big_value(*a) <= u64::MAX {
            Some(big_value(*a) as u64)
        } else {
            None
        }),
{
    num_traits::ToPrimitive::to_u64(a)
}

/// `BigInt::bits`: the number of binary digits of the absolute value.
#[verifier::external_body]
pub(crate) fn big_bits(a: &BigInt) -> (r: u64)
    ensures
        r == bit_length(abs(big_value(*a))),
{
    a.bits()
}

/// `&BigInt << u64`: the value times 2^k. The shift is bounded so that the
/// result stays small enough to allocate.
#[verifier::external_body]
pub(crate) fn big_shl(a: &BigInt, k: u64) -> (r: BigInt)
    requires
        k <= 4096,
    ensures
        big_value(r) == big_value(*a) * pow2(k as nat),
{
    a << k
}

/// `&BigInt >> u64`: the value divided by 2^k, rounded down.
#[verifier::external_body]
pub(crate) fn big_shr(a: &BigInt, k: u64) -> (r: BigInt)
    ensures
        big_value(r) == big_value(*a) / (pow2(k as nat) as int),
{
    a >> k
}

} // verus!
