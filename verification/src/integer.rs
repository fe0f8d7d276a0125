//! Machine-integer arithmetic of the tower: the operations wrap at 64 bits,
//! and division rounds toward zero.
use vstd::prelude::*;

verus! {

/// The quotient of `x` by `d` rounded toward zero.
pub open spec fn trunc_div(x: int, d: int) -> int
    recommends
        d != 0,
{
    if x >= 0 {
        if d > 0 {
            x / d
        } else {
            -(x / (-d))
        }
    } else {
        if d > 0 {
            -((-x) / d)
        } else {
            (-x) / (-d)
        }
    }
}

/// The remainder that goes with `trunc_div`; it has the sign of `x`.
pub open spec fn trunc_rem(x: int, d: int) -> int
    recommends
        d != 0,
{
    let m = if d > 0 {
        d
    } else {
        -d
    };
    if x >= 0 {
        x % m
    } else {
        -((-x) % m)
    }
}

/// Quotient and remainder fit together, and the remainder is the smaller.
pub proof fn lemma_trunc_div_rem(x: int, d: int)
    requires
        d != 0,
    ensures
        x == d * trunc_div(x, d) + trunc_rem(x, d),
        -d < trunc_rem(x, d) < d || d < trunc_rem(x, d) < -d,
        x >= 0 ==> trunc_rem(x, d) >= 0,
        x <= 0 ==> trunc_rem(x, d) <= 0,
{
    let m = if d > 0 {
        d
    } else {
        -d
    };
    let a = if x >= 0 {
        x
    } else {
        -x
    };
    vstd::arithmetic::div_mod::lemma_fundamental_div_mod(a, m);
    vstd::arithmetic::div_mod::lemma_mod_bound(a, m);
    let q = a / m;
    assert(d * -q == -(d * q)) by (nonlinear_arith);
    assert((-d) * q == -(d * q)) by (nonlinear_arith);
}

/// A quotient is no larger in magnitude than its dividend.
pub proof fn lemma_quotient_bounds(x: int, d: int)
    requires
        d != 0,
    ensures
        x >= 0 ==> -x <= trunc_div(x, d) <= x,
        x <= 0 ==> x <= trunc_div(x, d) <= -x,
{
    let m = if d > 0 {
        d
    } else {
        -d
    };
    let a = if x >= 0 {
        x
    } else {
        -x
    };
    vstd::arithmetic::div_mod::lemma_div_pos_is_pos(a, m);
    vstd::arithmetic::div_mod::lemma_div_nonincreasing(a, m);
}


/// The integer congruent to `v` modulo 2^64 that a signed 64-bit word holds.
pub open spec fn wrap(v: int) -> int {
    let r = v % 0x1_0000_0000_0000_0000;
    if r > i64::MAX {
        r - 0x1_0000_0000_0000_0000
    } else {
        r
    }
}

/// Sum wrapped to 64 bits.
pub fn int_add(l: i64, r: i64) -> (out: i64)
    ensures
        out == wrap(l + r),
{
    l.wrapping_add(r)
}

/// Difference wrapped to 64 bits.
pub fn int_sub(l: i64, r: i64) -> (out: i64)
    ensures
        out == wrap(l - r),
{
    l.wrapping_sub(r)
}

/// Product wrapped to 64 bits.
pub fn int_mul(l: i64, r: i64) -> (out: i64)
    ensures
        out == wrap(l * r),
{
    l.wrapping_mul(r)
}

/// Quotient rounded toward zero, wrapped to 64 bits.
pub fn int_div(l: i64, r: i64) -> (out: i64)
    requires
        r != 0,
    ensures
        out == wrap(trunc_div(l as int, r as int)),
{
    proof {
        lemma_quotient_bounds(l as int, r as int);
        let m = if r > 0 {
            r as int
        } else {
            -(r as int)
        };
        vstd::arithmetic::div_mod::lemma_basic_div(0, m);
        if r == -1 {
            vstd::arithmetic::div_mod::lemma_div_basics(-(l as int));
        }
        if l < 0 && r < -1 {
            vstd::arithmetic::div_mod::lemma_div_decreases(-(l as int), m);
        }
    }
    match l.checked_div(r) {
        Some(q) => q,
        None => l,
    }
}

/// Remainder with the sign of the dividend.
pub fn int_rem(l: i64, r: i64) -> (out: i64)
    requires
        r != 0,
    ensures
        out == trunc_rem(l as int, r as int),
{
    match l.checked_rem(r) {
        Some(q) => q,
        None => 0,
    }
}

/// The opposite sign, wrapped to 64 bits.
pub fn int_neg(x: i64) -> (out: i64)
    ensures
        out == wrap(-x),
{
    0i64.wrapping_sub(x)
}

} // verus!
