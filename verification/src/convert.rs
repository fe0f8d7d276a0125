//! Conversions between integers and doubles: rounding an integer to the
//! nearest double, and truncating a double to its integer part.
use vstd::prelude::*;
use vstd::arithmetic::power2::{pow2, lemma_pow2_pos, lemma_pow2_unfold, lemma_pow2_adds, lemma_pow2_strictly_increases, lemma2_to64, lemma2_to64_rest};
use vstd::arithmetic::div_mod::{lemma_fundamental_div_mod, lemma_fundamental_div_mod_converse, lemma_div_denominator, lemma_breakdown, lemma_div_by_multiple, lemma_div_multiples_vanish_quotient, lemma_mod_bound};
use crate::double::{SIGN_BIT, INFINITY_BITS, HIDDEN_BIT, magnitude, scaled_magnitude, spec_is_negative, spec_is_finite};
use crate::bigint::{big_value, abs, big_is_negative, big_neg, big_clone, big_bits, big_to_u64, big_shr, big_shl, big_eq, big_from_u64};
use num_bigint::BigInt;
use vstd::pervasive::unreached;

verus! {

/// The number of binary digits of `m`: 0 for 0, and `n` when 2^(n-1) <= m < 2^n.
pub open spec fn bit_length(m: nat) -> nat
    decreases m,
{
    if m == 0 {
        0
    } else {
        1 + bit_length(m / 2)
    }
}

/// `m / unit` rounded to the nearest integer, a tie going to the even one.
pub open spec fn div_round_half_even(m: nat, unit: nat) -> nat
    recommends
        unit > 0,
{
    let q = m / unit;
    let r = m % unit;
    if 2 * r < unit || (2 * r == unit && q % 2 == 0) {
        q
    } else {
        q + 1
    }
}

/// The 53-bit significand of the double nearest to `m > 0`: `m` scaled to 53
/// binary digits, rounded half to even where digits are dropped. It lies
/// between 2^52 and 2^53, the upper end when rounding carries.
pub open spec fn significand(m: nat) -> nat {
    let len = bit_length(m);
    if len <= 53 {
        m * pow2((53 - len) as nat)
    } else {
        div_round_half_even(m, pow2((len - 53) as nat))
    }
}

/// The pattern of the double nearest to the natural number `m`, ties to the
/// even significand: biased exponent and significand packed so that a carry
/// out of the significand moves into the exponent; infinity from 2^1024 on.
pub open spec fn spec_from_nat(m: nat) -> u64 {
    if m == 0 {
        0
    } else {
        let packed = (bit_length(m) + 1022) * HIDDEN_BIT + significand(m) - HIDDEN_BIT;
        if packed >= INFINITY_BITS {
            INFINITY_BITS
        } else {
            packed as u64
        }
    }
}

/// The pattern of the double nearest to the integer `v`; 0 gives positive zero.
pub open spec fn spec_from_int(v: int) -> u64 {
    if v < 0 {
        (spec_from_nat((-v) as nat) + SIGN_BIT) as u64
    } else {
        spec_from_nat(v as nat)
    }
}

/// The integer part of a finite double, rounded toward zero.
pub open spec fn spec_truncated(bits: u64) -> int {
    let t = (scaled_magnitude(magnitude(bits)) / pow2(1074)) as int;
    if spec_is_negative(bits) {
        -t
    } else {
        t
    }
}

pub proof fn lemma_pow2_values()
    ensures
        pow2(0) == 1,
        pow2(1) == 2,
        pow2(10) == 1024,
        pow2(11) == 2048,
        pow2(52) == HIDDEN_BIT,
        pow2(53) == 2 * HIDDEN_BIT,
        pow2(63) == SIGN_BIT,
        pow2(64) == 2 * SIGN_BIT,
{
    lemma2_to64();
    lemma2_to64_rest();
}

/// A positive number lies between the powers of two that its length names.
pub proof fn lemma_bit_length_bounds(m: nat)
    requires
        m > 0,
    ensures
        bit_length(m) >= 1,
        pow2((bit_length(m) - 1) as nat) <= m < pow2(bit_length(m)),
    decreases m,
{
    lemma2_to64();
    if m == 1 {
        assert(bit_length(1) == 1 + bit_length(0));
    } else {
        lemma_bit_length_bounds(m / 2);
        let l = bit_length(m / 2);
        lemma_pow2_unfold(l);
        lemma_pow2_unfold(l + 1);
    }
}

/// The length is the only exponent whose powers of two enclose the number.
pub proof fn lemma_bit_length_unique(m: nat, len: nat)
    requires
        len >= 1,
        pow2((len - 1) as nat) <= m < pow2(len),
    ensures
        bit_length(m) == len,
{
    lemma_pow2_pos((len - 1) as nat);
    lemma_bit_length_bounds(m);
    let l = bit_length(m);
    if l < len {
        if l < len - 1 {
            lemma_pow2_strictly_increases(l, (len - 1) as nat);
        }
    } else if l > len {
        if len < l - 1 {
            lemma_pow2_strictly_increases(len, (l - 1) as nat);
        }
    }
}

/// Dropping `s` low digits shortens a number by `s`, while any digit is left.
pub proof fn lemma_bit_length_shift(m: nat, s: nat)
    requires
        m / pow2(s) > 0,
    ensures
        bit_length(m) == bit_length(m / pow2(s)) + s,
{
    let u = pow2(s);
    lemma_pow2_pos(s);
    let h = m / u;
    let lh = bit_length(h);
    lemma_bit_length_bounds(h);
    lemma_fundamental_div_mod(m as int, u as int);
    lemma_mod_bound(m as int, u as int);
    lemma_pow2_adds((lh - 1) as nat, s);
    lemma_pow2_adds(lh, s);
    let lo = pow2((lh - 1) as nat);
    let hi = pow2(lh);
    assert(lo * u <= h * u) by (nonlinear_arith)
        requires
            lo <= h,
    ;
    assert((h + 1) * u <= hi * u) by (nonlinear_arith)
        requires
            h + 1 <= hi,
    ;
    assert(m == u * h + m % u);
    assert(u * h == h * u) by (nonlinear_arith);
    assert((h + 1) * u == h * u + u) by (nonlinear_arith);
    lemma_bit_length_unique(m, lh + s);
}

/// Rounding in two steps: drop `s` digits remembering only whether any was
/// set, then round off `k` more. The outcome is that of rounding at once.
pub proof fn lemma_round_split(m: nat, s: nat, k: nat)
    requires
        k >= 1,
    ensures
        ({
            let head = m / pow2(s);
            let tail = m % pow2(s);
            let q = head / pow2(k);
            let r = head % pow2(k);
            let half = pow2((k - 1) as nat);
            div_round_half_even(m, pow2(s + k)) == if r > half || (r == half && (tail != 0 || q % 2
                == 1)) {
                q + 1
            } else {
                q
            }
        }),
{
    let us = pow2(s);
    let uk = pow2(k);
    let half = pow2((k - 1) as nat);
    lemma_pow2_pos(s);
    lemma_pow2_pos(k);
    lemma_pow2_pos((k - 1) as nat);
    lemma_pow2_unfold(k);
    lemma_pow2_adds(s, k);
    let head = m / us;
    let tail = m % us;
    let q = head / uk;
    let r = head % uk;
    lemma_div_denominator(m as int, us as int, uk as int);
    lemma_breakdown(m as int, us as int, uk as int);
    lemma_mod_bound(m as int, us as int);
    lemma_mod_bound(head as int, uk as int);
    let big_r = m % (us * uk);
    assert(m / (us * uk) == q);
    assert(big_r == us * r + tail);
    assert(uk == 2 * half);
    if r > half {
        assert(2 * (us * r) >= 2 * (us * (half + 1))) by (nonlinear_arith)
            requires
                r >= half + 1,
                us > 0,
        ;
        assert(2 * (us * (half + 1)) == us * (2 * half) + 2 * us) by (nonlinear_arith);
    } else if r == half {
        assert(2 * (us * half) == us * (2 * half)) by (nonlinear_arith);
    } else {
        assert(2 * (us * r) <= 2 * (us * (half - 1))) by (nonlinear_arith)
            requires
                r <= half - 1,
                us > 0,
        ;
        assert(2 * (us * (half - 1)) == us * (2 * half) - 2 * us) by (nonlinear_arith);
    }
}

/// 2^k as a machine integer.
pub fn pow2_u64(k: u64) -> (r: u64)
    requires
        k < 64,
    ensures
        r == pow2(k as nat),
        r >= 1,
{
    proof {
        vstd::bits::lemma_u64_pow2_no_overflow(k as nat);
        vstd::bits::lemma_u64_shl_is_mul(1, k);
    }
    1u64 << k
}

/// The number of binary digits of a machine integer.
pub fn bit_length_u64(m: u64) -> (len: u64)
    ensures
        len == bit_length(m as nat),
        len <= 64,
{
    proof {
        lemma_pow2_values();
        if m > 0 {
            lemma_bit_length_bounds(m as nat);
            if bit_length(m as nat) > 64 {
                if bit_length(m as nat) > 65 {
                    lemma_pow2_strictly_increases(64, (bit_length(m as nat) - 1) as nat);
                }
            }
        }
    }
    let mut len: u64 = 0;
    let mut rest: u64 = m;
    while rest != 0
        invariant
            bit_length(m as nat) == len + bit_length(rest as nat),
            bit_length(m as nat) <= 64,
        decreases rest,
    {
        rest = rest / 2;
        len = len + 1;
    }
    len
}

/// The double nearest to `m`, worked out from the leading digits of `m`
/// (`head`), the number of digits below them (`shift`) and whether any of
/// those is set.
pub(crate) fn from_parts(head: u64, shift: u64, tail_nonzero: bool, Ghost(m): Ghost<nat>) -> (r:
    u64)
    requires
        shift <= 960,
        head == m / pow2(shift as nat),
        tail_nonzero == (m % pow2(shift as nat) != 0),
        shift > 0 ==> head >= SIGN_BIT,
    ensures
        r == spec_from_nat(m),
{
    proof {
        lemma_pow2_values();
        lemma_pow2_pos(shift as nat);
        lemma_fundamental_div_mod(m as int, pow2(shift as nat) as int);
    }
    if head == 0 {
        assert(m == 0);
        return 0;
    }
    let hl: u64 = bit_length_u64(head);
    let len: u64 = hl + shift;
    proof {
        lemma_bit_length_shift(m, shift as nat);
        lemma_bit_length_bounds(head as nat);
        if shift > 0 {
            lemma_bit_length_unique(head as nat, 64);
        }
    }
    let sig: u64;
    if len <= 53 {
        let up: u64 = pow2_u64(53 - hl);
        proof {
            lemma_pow2_adds((hl - 1) as nat, (53 - hl) as nat);
            lemma_pow2_adds(hl as nat, (53 - hl) as nat);
            let lo = pow2((hl - 1) as nat);
            let hi = pow2(hl as nat);
            assert(lo * up <= head * up) by (nonlinear_arith)
                requires
                    lo <= head,
            ;
            assert(head * up < hi * up) by (nonlinear_arith)
                requires
                    head < hi,
                    up > 0,
            ;
        }
        sig = head * up;
    } else {
        let hk: u64 = hl - 53;
        let unit: u64 = pow2_u64(hk);
        let half: u64 = pow2_u64(hk - 1);
        let q: u64 = head / unit;
        let r: u64 = head % unit;
        proof {
            lemma_round_split(m, shift as nat, hk as nat);
            lemma_pow2_adds(52, hk as nat);
            lemma_pow2_adds(53, hk as nat);
            let u = unit as int;
            assert(q >= HIDDEN_BIT) by {
                vstd::arithmetic::div_mod::lemma_div_is_ordered(HIDDEN_BIT * u, head as int, u);
                lemma_div_by_multiple(HIDDEN_BIT as int, u);
            }
            assert(q < 2 * HIDDEN_BIT) by {
                vstd::arithmetic::div_mod::lemma_multiply_divide_lt(
                    head as int,
                    u,
                    2 * HIDDEN_BIT,
                );
                assert(u * (2 * HIDDEN_BIT) == (2 * HIDDEN_BIT) * u) by (nonlinear_arith);
            }
        }
        if r > half || (r == half && (tail_nonzero || q % 2 == 1)) {
            sig = q + 1;
        } else {
            sig = q;
        }
    }
    assert(sig == significand(m));
    assert(HIDDEN_BIT <= sig <= 2 * HIDDEN_BIT);
    let packed: u64 = (len + 1022) * HIDDEN_BIT + (sig - HIDDEN_BIT);
    if packed >= INFINITY_BITS {
        INFINITY_BITS
    } else {
        packed
    }
}

/// The double nearest to a machine integer, ties to even.
pub fn from_i64(n: i64) -> (r: u64)
    ensures
        r == spec_from_int(n as int),
{
    proof {
        lemma_pow2_values();
    }
    if n >= 0 {
        from_parts(n as u64, 0, false, Ghost(n as nat))
    } else {
        let m: u64 = ((-(n + 1)) as u64) + 1;
        let mag: u64 = from_parts(m, 0, false, Ghost(m as nat));
        proof {
            lemma_from_nat_is_magnitude(m as nat);
        }
        mag + SIGN_BIT
    }
}

/// Rounding a natural number gives a pattern without the sign bit: a finite
/// double or positive infinity, and zero only for zero.
pub proof fn lemma_from_nat_is_magnitude(m: nat)
    ensures
        spec_from_nat(m) <= INFINITY_BITS,
        m > 0 ==> spec_from_nat(m) >= HIDDEN_BIT,
{
    if m > 0 {
        lemma_significand_range(m);
        assert((bit_length(m) + 1022) * HIDDEN_BIT >= 1023 * HIDDEN_BIT) by (nonlinear_arith)
            requires
                bit_length(m) >= 1,
        ;
    }
}

/// The significand has 53 digits, or is 2^53 after a carry.
pub proof fn lemma_significand_range(m: nat)
    requires
        m > 0,
    ensures
        bit_length(m) >= 1,
        HIDDEN_BIT <= significand(m) <= 2 * HIDDEN_BIT,
        bit_length(m) <= 53 ==> significand(m) < 2 * HIDDEN_BIT,
{
    lemma_pow2_values();
    lemma_bit_length_bounds(m);
    let len = bit_length(m);
    let lo = pow2((len - 1) as nat);
    let hi = pow2(len);
    if len <= 53 {
        let up = pow2((53 - len) as nat);
        lemma_pow2_pos((53 - len) as nat);
        lemma_pow2_adds((len - 1) as nat, (53 - len) as nat);
        lemma_pow2_adds(len, (53 - len) as nat);
        assert(lo * up <= m * up) by (nonlinear_arith)
            requires
                lo <= m,
        ;
        assert(m * up < hi * up) by (nonlinear_arith)
            requires
                m < hi,
                up > 0,
        ;
    } else {
        let k = (len - 53) as nat;
        let u = pow2(k) as int;
        lemma_pow2_pos(k);
        lemma_pow2_adds(52, k);
        lemma_pow2_adds(53, k);
        vstd::arithmetic::div_mod::lemma_div_is_ordered(HIDDEN_BIT * u, m as int, u);
        lemma_div_by_multiple(HIDDEN_BIT as int, u);
        vstd::arithmetic::div_mod::lemma_multiply_divide_lt(m as int, u, 2 * HIDDEN_BIT);
        assert(u * (2 * HIDDEN_BIT) == (2 * HIDDEN_BIT) * u) by (nonlinear_arith);
    }
}

/// The integer part of a magnitude, read off its exponent and fraction: the
/// significand shifted right below 2^52, left above, and 0 under 1.
pub proof fn lemma_truncated_fields(m: nat)
    ensures
        ({
            let e = m / (HIDDEN_BIT as nat);
            let sig = (HIDDEN_BIT + m % (HIDDEN_BIT as nat)) as nat;
            let t = scaled_magnitude(m) / pow2(1074);
            &&& e < 1023 ==> t == 0
            &&& 1023 <= e <= 1075 ==> t == sig / pow2((1075 - e) as nat)
            &&& e >= 1075 ==> t == sig * pow2((e - 1075) as nat)
            &&& e >= 1075 ==> scaled_magnitude(m) == t * pow2(1074)
            &&& e <= 1075 ==> t <= sig
        }),
{
    lemma_pow2_values();
    let h = HIDDEN_BIT as nat;
    let e = m / h;
    let f = m % h;
    let sig = h + f;
    let top = pow2(1074);
    lemma_pow2_pos(1074);
    lemma_pow2_strictly_increases(52, 1074);
    if e == 0 {
        vstd::arithmetic::div_mod::lemma_basic_div(f as int, top as int);
    } else if e < 1023 {
        let p = pow2((e - 1) as nat);
        lemma_pow2_pos((e - 1) as nat);
        lemma_pow2_adds(53, (e - 1) as nat);
        if 52 + e < 1074 {
            lemma_pow2_strictly_increases(52 + e, 1074);
        }
        assert(sig * p < (2 * h) * p) by (nonlinear_arith)
            requires
                sig < 2 * h,
                p > 0,
        {
        }
        lemma_pow2_pos((e - 1) as nat);
        vstd::arithmetic::div_mod::lemma_basic_div((sig * p) as int, top as int);
    } else if e <= 1075 {
        let p = pow2((e - 1) as nat);
        let d = pow2((1075 - e) as nat);
        lemma_pow2_pos((e - 1) as nat);
        lemma_pow2_pos((1075 - e) as nat);
        lemma_pow2_adds((e - 1) as nat, (1075 - e) as nat);
        lemma_div_multiples_vanish_quotient(p as int, sig as int, d as int);
        assert(sig * p == p * sig) by (nonlinear_arith);
        vstd::arithmetic::div_mod::lemma_div_nonincreasing(sig as int, d as int);
    }
    if e >= 1075 {
        let p = pow2((e - 1) as nat);
        let up = pow2((e - 1075) as nat);
        lemma_pow2_adds((e - 1075) as nat, 1074);
        assert(sig * p == (sig * up) * top) by (nonlinear_arith)
            requires
                p == up * top,
        {
        }
        lemma_div_by_multiple((sig * up) as int, top as int);
    }
}

/// The integer part of a finite double as a machine integer, where it fits.
pub fn truncated_i64(bits: u64) -> (r: Option<i64>)
    ensures
        r == (if spec_is_finite(bits) && i64::MIN <= spec_truncated(bits) <= i64::MAX {
            Some(spec_truncated(bits) as i64)
        } else {
            None
        }),
{
    let m: u64 = bits % SIGN_BIT;
    if m >= INFINITY_BITS {
        return None;
    }
    let negative: bool = bits >= SIGN_BIT;
    let e: u64 = m / HIDDEN_BIT;
    let sig: u64 = HIDDEN_BIT + m % HIDDEN_BIT;
    proof {
        lemma_pow2_values();
        lemma_truncated_fields(m as nat);
    }
    if e < 1023 {
        Some(0)
    } else if e <= 1075 {
        let t: u64 = sig / pow2_u64(1075 - e);
        if negative {
            Some(-(t as i64))
        } else {
            Some(t as i64)
        }
    } else if e <= 1085 {
        let up: u64 = pow2_u64(e - 1075);
        proof {
            if e < 1085 {
                lemma_pow2_strictly_increases((e - 1075) as nat, 10);
            }
            assert(sig * up < (2 * HIDDEN_BIT) * 1024) by (nonlinear_arith)
                requires
                    sig < 2 * HIDDEN_BIT,
                    0 < up <= 1024,
            {
            }
        }
        let t: u64 = sig * up;
        if negative {
            Some(-(t as i64))
        } else {
            Some(t as i64)
        }
    } else {
        proof {
            let up = pow2((e - 1075) as nat);
            if e > 1086 {
                lemma_pow2_strictly_increases(11, (e - 1075) as nat);
            }
            assert(sig * up >= HIDDEN_BIT * 2048) by (nonlinear_arith)
                requires
                    sig >= HIDDEN_BIT,
                    up >= 2048,
            {
            }
            if sig > HIDDEN_BIT || e > 1086 {
                assert(sig * up > HIDDEN_BIT * 2048) by (nonlinear_arith)
                    requires
                        sig >= HIDDEN_BIT,
                        up >= 2048,
                        sig > HIDDEN_BIT || up > 2048,
                {
                }
            }
        }
        if negative && e == 1086 && sig == HIDDEN_BIT {
            Some(i64::MIN)
        } else {
            None
        }
    }
}

/// What the rounded pattern denotes: the significand at the exponent that the
/// length of the number gives.
pub proof fn lemma_from_nat_value(m: nat)
    requires
        m > 0,
        bit_length(m) <= 1024,
    ensures
        scaled_magnitude(spec_from_nat(m) as nat) == significand(m) * pow2(bit_length(m) + 1021),
{
    lemma_pow2_values();
    lemma_significand_range(m);
    let h = HIDDEN_BIT as nat;
    let len = bit_length(m);
    let sig = significand(m);
    let packed = ((len + 1022) * h + sig - h) as nat;
    assert((len + 1022) * h <= 2046 * h) by (nonlinear_arith)
        requires
            len <= 1024,
    {
    }
    assert(packed <= INFINITY_BITS);
    assert(spec_from_nat(m) == packed);
    if sig == 2 * h {
        assert(packed == (len + 1023) * h + 0);
        lemma_fundamental_div_mod_converse(packed as int, h as int, (len + 1023) as int, 0);
        lemma_pow2_unfold(len + 1022);
        let p = pow2(len + 1021);
        assert((h + 0) * (2 * p) == (2 * h) * p) by (nonlinear_arith);
    } else {
        assert(packed == (len + 1022) * h + (sig - h));
        lemma_fundamental_div_mod_converse(
            packed as int,
            h as int,
            (len + 1022) as int,
            (sig - h) as int,
        );
    }
}

/// An integer of at most 53 binary digits converts without rounding, and
/// truncating the double gives the integer back.
pub proof fn lemma_from_int_exact(v: int)
    requires
        -2 * HIDDEN_BIT < v < 2 * HIDDEN_BIT,
    ensures
        spec_is_finite(spec_from_int(v)),
        spec_is_negative(spec_from_int(v)) == (v < 0),
        scaled_magnitude(magnitude(spec_from_int(v))) == (if v < 0 {
            -v
        } else {
            v
        }) * pow2(1074),
        spec_truncated(spec_from_int(v)) == v,
{
    lemma_pow2_values();
    let m: nat = if v < 0 {
        (-v) as nat
    } else {
        v as nat
    };
    let top = pow2(1074);
    lemma_pow2_pos(1074);
    lemma_from_nat_is_magnitude(m);
    let b = spec_from_nat(m);
    assert(magnitude(spec_from_int(v)) == b);
    if m > 0 {
        lemma_bit_length_bounds(m);
        let len = bit_length(m);
        if len > 53 {
            if len > 54 {
                lemma_pow2_strictly_increases(53, (len - 1) as nat);
            }
        }
        assert(len <= 53);
        lemma_significand_range(m);
        lemma_from_nat_value(m);
        let up = pow2((53 - len) as nat);
        let p = pow2(len + 1021);
        lemma_pow2_adds((53 - len) as nat, len + 1021);
        assert((m * up) * p == m * top) by (nonlinear_arith)
            requires
                up * p == top,
        {
        }
        assert((len + 1022) * HIDDEN_BIT <= 1075 * HIDDEN_BIT) by (nonlinear_arith)
            requires
                len <= 53,
        {
        }
        lemma_div_by_multiple(m as int, top as int);
    } else {
        assert(scaled_magnitude(0) == 0);
        assert(0 * top == 0);
        vstd::arithmetic::div_mod::lemma_basic_div(0, top as int);
    }
}

/// The double nearest to a big integer, ties to even; an integer too large
/// in magnitude for any finite double gives the infinity of its sign.
pub fn from_big(b: &BigInt) -> (r: u64)
    ensures
        r == spec_from_int(big_value(*b)),
{
    let negative: bool = big_is_negative(b);
    let mag: BigInt = if negative {
        big_neg(big_clone(b))
    } else {
        big_clone(b)
    };
    let ghost m: nat = abs(big_value(*b));
    let len: u64 = big_bits(&mag);
    proof {
        lemma_pow2_values();
        lemma_from_nat_is_magnitude(m);
        if m > 0 {
            lemma_bit_length_bounds(m);
            lemma_significand_range(m);
        }
    }
    let rounded: u64;
    if len > 1024 {
        proof {
            assert((len + 1022) * HIDDEN_BIT >= 2047 * HIDDEN_BIT) by (nonlinear_arith)
                requires
                    len > 1024,
            {
            }
        }
        rounded = INFINITY_BITS;
    } else if len <= 64 {
        proof {
            if m > 0 && len < 64 {
                lemma_pow2_strictly_increases(len as nat, 64);
            }
        }
        rounded =
        match big_to_u64(&mag) {
            Some(head) => from_parts(head, 0, false, Ghost(m)),
            None => unreached(),
        };
    } else {
        let shift: u64 = len - 64;
        let top: BigInt = big_shr(&mag, shift);
        let ghost u = pow2(shift as nat) as int;
        proof {
            lemma_pow2_pos(shift as nat);
            lemma_pow2_adds(63, shift as nat);
            lemma_pow2_adds(64, shift as nat);
            vstd::arithmetic::div_mod::lemma_div_is_ordered(SIGN_BIT * u, m as int, u);
            lemma_div_by_multiple(SIGN_BIT as int, u);
            vstd::arithmetic::div_mod::lemma_multiply_divide_lt(m as int, u, 2 * SIGN_BIT);
            assert(u * (2 * SIGN_BIT) == (2 * SIGN_BIT) * u) by (nonlinear_arith);
            lemma_fundamental_div_mod(m as int, u);
            assert(u * (m as int / u) == (m as int / u) * u) by (nonlinear_arith);
        }
        let back: BigInt = big_shl(&top, shift);
        let tail_nonzero: bool = !big_eq(&back, &mag);
        rounded =
        match big_to_u64(&top) {
            Some(head) => from_parts(head, shift, tail_nonzero, Ghost(m)),
            None => unreached(),
        };
    }
    if negative {
        rounded + SIGN_BIT
    } else {
        rounded
    }
}

/// The integer part of a finite double as a big integer.
pub fn big_from_double(bits: u64) -> (r: BigInt)
    requires
        spec_is_finite(bits),
    ensures
        big_value(r) == spec_truncated(bits),
{
    let m: u64 = bits % SIGN_BIT;
    let e: u64 = m / HIDDEN_BIT;
    let sig: u64 = HIDDEN_BIT + m % HIDDEN_BIT;
    proof {
        lemma_pow2_values();
        lemma_truncated_fields(m as nat);
    }
    let t: BigInt = if e < 1023 {
        big_from_u64(0)
    } else if e <= 1075 {
        big_from_u64(sig / pow2_u64(1075 - e))
    } else {
        big_shl(&big_from_u64(sig), e - 1075)
    };
    if bits >= SIGN_BIT {
        big_neg(t)
    } else {
        t
    }
}

} // verus!
