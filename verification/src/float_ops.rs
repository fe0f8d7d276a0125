//! Arithmetic on doubles, carried out on their bit patterns by the software
//! implementation of IEEE-754 in `rustc_apfloat`.
//!
//! What an IEEE operation returns is a function of its operands that takes
//! pages to state. It is given a name here, and the library's contracts speak
//! of that name. That the outside implementation computes it is not proved.
use vstd::prelude::*;
use rustc_apfloat::ieee::Double;
use rustc_apfloat::Float;

verus! {

/// The pattern of the IEEE-754 sum of two doubles, rounded to nearest, ties to even.
pub uninterp spec fn double_sum(a: u64, b: u64) -> u64;

/// The pattern of the IEEE-754 difference of two doubles, rounded to nearest, ties to even.
pub uninterp spec fn double_difference(a: u64, b: u64) -> u64;

/// The pattern of the IEEE-754 product of two doubles, rounded to nearest, ties to even.
pub uninterp spec fn double_product(a: u64, b: u64) -> u64;

/// The pattern of the IEEE-754 quotient of two doubles, rounded to nearest, ties to even.
pub uninterp spec fn double_quotient(a: u64, b: u64) -> u64;

/// The pattern of the remainder of two doubles as C's `fmod` defines it.
pub uninterp spec fn double_remainder(a: u64, b: u64) -> u64;

/// `Double + Double` of `rustc_apfloat`, between `from_bits` and `to_bits`:
/// addition with the default rounding. The status flags are dropped.
#[verifier::external_body]
pub(crate) fn float_add(a: u64, b: u64) -> (r: u64)
    ensures
        r == double_sum(a, b),
{
    (Double::from_bits(u128::from(a)) + Double::from_bits(u128::from(b))).value.to_bits() as u64
}

/// `Double - Double` of `rustc_apfloat`, between `from_bits` and `to_bits`:
/// subtraction with the default rounding. The status flags are dropped.
#[verifier::external_body]
pub(crate) fn float_sub(a: u64, b: u64) -> (r: u64)
    ensures
        r == double_difference(a, b),
{
    (Double::from_bits(u128::from(a)) - Double::from_bits(u128::from(b))).value.to_bits() as u64
}

/// `Double * Double` of `rustc_apfloat`, between `from_bits` and `to_bits`:
/// multiplication with the default rounding. The status flags are dropped.
#[verifier::external_body]
pub(crate) fn float_mul(a: u64, b: u64) -> (r: u64)
    ensures
        r == double_product(a, b),
{
    (Double::from_bits(u128::from(a)) * Double::from_bits(u128::from(b))).value.to_bits() as u64
}

/// `Double / Double` of `rustc_apfloat`, between `from_bits` and `to_bits`:
/// division with the default rounding; a zero divisor gives an infinity or
/// a NaN, never a failure. The status flags are dropped.
#[verifier::external_body]
pub(crate) fn float_div(a: u64, b: u64) -> (r: u64)
    ensures
        r == double_quotient(a, b),
{
    (Double::from_bits(u128::from(a)) / Double::from_bits(u128::from(b))).value.to_bits() as u64
}

/// `Double % Double` of `rustc_apfloat`, between `from_bits` and `to_bits`:
/// the remainder of C's `fmod`. The status flags are dropped.
#[verifier::external_body]
pub(crate) fn float_rem(a: u64, b: u64) -> (r: u64)
    ensures
        r == double_remainder(a, b),
{
    (Double::from_bits(u128::from(a)) % Double::from_bits(u128::from(b))).value.to_bits() as u64
}

} // verus!
