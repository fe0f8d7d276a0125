//! The conversion of an integer to a double rounds to nearest: no double
//! lies closer to the integer than the one that the conversion gives.
use vstd::prelude::*;
use vstd::arithmetic::power2::{pow2, lemma_pow2_pos, lemma_pow2_unfold, lemma_pow2_adds};
use vstd::arithmetic::div_mod::{lemma_fundamental_div_mod, lemma_fundamental_div_mod_converse, lemma_mod_bound, lemma_div_by_multiple, lemma_div_is_ordered, lemma_multiply_divide_lt};
use crate::convert::{bit_length, div_round_half_even, significand, spec_from_nat, spec_from_int, lemma_pow2_values, lemma_bit_length_bounds, lemma_from_nat_value, lemma_from_nat_is_magnitude, lemma_significand_range};
use crate::double::{INFINITY_BITS, HIDDEN_BIT, magnitude, scaled_magnitude, scaled_value, spec_is_nan, spec_is_negative, lemma_scaled_magnitude_increases};

verus! {

/// How far apart two integers are.
pub open spec fn distance(a: int, b: int) -> int {
    if a >= b {
        a - b
    } else {
        b - a
    }
}

/// Distances scale with the unit they are measured in.
proof fn lemma_distance_scales(a: int, b: int, t: int)
    requires
        t > 0,
    ensures
        distance(a * t, b * t) == distance(a, b) * t,
{
    assert((a - b) * t == a * t - b * t) by (nonlinear_arith);
    assert((b - a) * t == b * t - a * t) by (nonlinear_arith);
    if a >= b {
        assert(a * t >= b * t) by (nonlinear_arith)
            requires
                a >= b,
                t > 0,
        {
        }
    } else {
        assert(a * t < b * t) by (nonlinear_arith)
            requires
                a < b,
                t > 0,
        {
        }
    }
}

/// The distance between a multiple of a step and a number, both in units
/// of `top`.
proof fn lemma_step_distance(j: int, u: int, top: int, step: int, m: int)
    requires
        top > 0,
        step == u * top,
    ensures
        j * step == (j * u) * top,
        distance(j * step, m * top) == distance(j * u, m) * top,
{
    assert(j * step == (j * u) * top) by (nonlinear_arith)
        requires
            step == u * top,
    {
    }
    lemma_distance_scales(j * u, m, top);
}

/// Rounding half to even gives a multiple of the unit that no other
/// multiple is nearer than.
pub proof fn lemma_rounded_is_nearest(m: nat, unit: nat, k: int)
    requires
        unit > 0,
    ensures
        distance((div_round_half_even(m, unit) * unit) as int, m as int) <= distance(
            k * unit,
            m as int,
        ),
{
    let q = (m / unit) as int;
    let r = (m % unit) as int;
    let u = unit as int;
    lemma_fundamental_div_mod(m as int, u);
    lemma_mod_bound(m as int, u);
    assert(u * q == q * u) by (nonlinear_arith);
    assert((q + 1) * u == q * u + u) by (nonlinear_arith);
    if k <= q {
        assert(k * u <= q * u) by (nonlinear_arith)
            requires
                k <= q,
                u > 0,
        {
        }
    } else {
        assert(k * u >= (q + 1) * u) by (nonlinear_arith)
            requires
                k >= q + 1,
                u > 0,
        {
        }
    }
}

/// Where digits are dropped, the leading 53 digits of a number lie between
/// 2^52 and 2^53.
proof fn lemma_leading_digits(m: nat)
    requires
        bit_length(m) > 53,
    ensures
        HIDDEN_BIT <= m / pow2((bit_length(m) - 53) as nat) < 2 * HIDDEN_BIT,
{
    lemma_pow2_values();
    lemma_bit_length_bounds(m);
    let len = bit_length(m);
    let k = (len - 53) as nat;
    let u = pow2(k) as int;
    lemma_pow2_pos(k);
    lemma_pow2_adds(52, k);
    lemma_pow2_adds(53, k);
    lemma_div_is_ordered(HIDDEN_BIT * u, m as int, u);
    lemma_div_by_multiple(HIDDEN_BIT as int, u);
    lemma_multiply_divide_lt(m as int, u, 2 * HIDDEN_BIT);
    assert(u * (2 * HIDDEN_BIT) == (2 * HIDDEN_BIT) * u) by (nonlinear_arith);
}

/// What a pattern with the exponent field `e` and the fraction `f` denotes.
proof fn lemma_scaled_of_fields(e: nat, f: nat)
    requires
        e >= 1,
        f < HIDDEN_BIT,
    ensures
        scaled_magnitude((e * HIDDEN_BIT + f) as nat) == (HIDDEN_BIT + f) * pow2((e - 1) as nat),
{
    let m = (e * HIDDEN_BIT + f) as nat;
    lemma_fundamental_div_mod_converse(m as int, HIDDEN_BIT as int, e as int, f as int);
}

/// Among the multiples of the unit that are nearest to a number, rounding
/// half to even gives an even one.
pub proof fn lemma_rounded_tie_is_even(m: nat, unit: nat, k: int)
    requires
        unit > 0,
        k != div_round_half_even(m, unit),
        distance(k * unit, m as int) == distance(
            (div_round_half_even(m, unit) * unit) as int,
            m as int,
        ),
    ensures
        div_round_half_even(m, unit) % 2 == 0,
{
    let q = (m / unit) as int;
    let r = (m % unit) as int;
    let u = unit as int;
    lemma_fundamental_div_mod(m as int, u);
    lemma_mod_bound(m as int, u);
    assert(u * q == q * u) by (nonlinear_arith);
    assert((q + 1) * u == q * u + u) by (nonlinear_arith);
    if k <= q - 1 {
        assert(k * u <= (q - 1) * u) by (nonlinear_arith)
            requires
                k <= q - 1,
                u > 0,
        {
        }
        assert((q - 1) * u == q * u - u) by (nonlinear_arith);
    } else if k >= q + 2 {
        assert(k * u >= (q + 2) * u) by (nonlinear_arith)
            requires
                k >= q + 2,
                u > 0,
        {
        }
        assert((q + 2) * u == q * u + 2 * u) by (nonlinear_arith);
    }
}

/// No double, nor infinity, lies closer to a natural number than the double
/// that the number converts to; and where another lies as close, the one
/// that the number converts to has the even pattern.
pub proof fn law_from_nat_is_nearest(m: nat, d: u64)
    requires
        d <= INFINITY_BITS,
    ensures
        distance(scaled_magnitude(spec_from_nat(m) as nat) as int, (m * pow2(1074)) as int)
            <= distance(scaled_magnitude(d as nat) as int, (m * pow2(1074)) as int),
        d != spec_from_nat(m) && distance(
            scaled_magnitude(spec_from_nat(m) as nat) as int,
            (m * pow2(1074)) as int,
        ) == distance(scaled_magnitude(d as nat) as int, (m * pow2(1074)) as int)
            ==> spec_from_nat(m) % 2 == 0,
{
    lemma_pow2_values();
    let h = HIDDEN_BIT as nat;
    let top = pow2(1074) as int;
    lemma_pow2_pos(1074);
    let target = m * top;
    let len = bit_length(m);
    let s_d = scaled_magnitude(d as nat) as int;
    let result = spec_from_nat(m);
    crate::double::lemma_scaled_magnitude_order(d as nat, result as nat);
    if m == 0 {
        assert(scaled_magnitude(0) == 0);
        assert(0 * top == 0);
    } else if len > 1024 {
        // everything up to infinity lies below the number
        lemma_bit_length_bounds(m);
        lemma_significand_range(m);
        assert((len + 1022) * h >= 2047 * h) by (nonlinear_arith)
            requires
                len > 1024,
        {
        }
        assert(result == INFINITY_BITS);
        lemma_scaled_of_fields(2047, 0);
        if d < INFINITY_BITS {
            lemma_scaled_magnitude_increases(d as nat, INFINITY_BITS as nat);
        }
        lemma_pow2_adds(1024, 1074);
        lemma_pow2_adds(52, 2046);
        if len > 1025 {
            vstd::arithmetic::power2::lemma_pow2_strictly_increases(1024, (len - 1) as nat);
        }
        assert(pow2(1024) * top <= m * top) by (nonlinear_arith)
            requires
                pow2(1024) <= m,
                top > 0,
        {
        }
    } else if len <= 53 {
        lemma_bit_length_bounds(m);
        lemma_from_nat_value(m);
        let up = pow2((53 - len) as nat);
        lemma_pow2_adds((53 - len) as nat, len + 1021);
        assert((m * up) * pow2(len + 1021) == m * top) by (nonlinear_arith)
            requires
                up * pow2(len + 1021) == top,
        {
        }
    } else {
        lemma_bit_length_bounds(m);
        lemma_from_nat_value(m);
        lemma_leading_digits(m);
        lemma_significand_range(m);
        let k = (len - 53) as nat;
        let u = pow2(k);
        lemma_pow2_pos(k);
        let step = pow2(len + 1021) as int;
        lemma_pow2_pos(len + 1021);
        lemma_pow2_adds(k, 1074);
        assert(step == u * top);
        let c = significand(m) as int;
        let q = (m / u) as int;
        let field = len + 1022;
        let e = (d as nat) / h;
        let f = (d as nat) % h;
        lemma_fundamental_div_mod(d as int, h as int);
        lemma_mod_bound(d as int, h as int);
        assert(d == h * e + f);
        lemma_step_distance(c, u as int, top, step, m as int);
        lemma_step_distance((h + f) as int, u as int, top, step, m as int);
        lemma_step_distance(q, u as int, top, step, m as int);
        lemma_step_distance(q + 1, u as int, top, step, m as int);
        let near = distance(c * u, m as int);
        assert(distance(c * step, target) == near * top);
        lemma_fundamental_div_mod(m as int, u as int);
        lemma_mod_bound(m as int, u as int);
        assert(u * q == q * u) by (nonlinear_arith);
        // the pattern of the result has the parity of its significand
        let packed = (field * h + c - h) as int;
        assert(field * h <= 2046 * h) by (nonlinear_arith)
            requires
                field <= 2046,
        {
        }
        assert(packed <= INFINITY_BITS);
        assert(result == packed);
        assert(field * h == 2 * (field * 0x0008_0000_0000_0000)) by (nonlinear_arith)
            requires
                h == 0x0010_0000_0000_0000,
        {
        }
        assert(c % 2 == 0 ==> result % 2 == 0);
        if e == field {
            assert(h * e == e * h) by (nonlinear_arith);
            lemma_scaled_of_fields(e, f);
            lemma_rounded_is_nearest(m, u, (h + f) as int);
            let other = distance(((h + f) * u) as int, m as int);
            assert(other * top >= near * top) by (nonlinear_arith)
                requires
                    other >= near,
                    top > 0,
            {
            }
            if d != result && other * top == near * top {
                assert(other == near) by (nonlinear_arith)
                    requires
                        other * top == near * top,
                        top > 0,
                {
                }
                lemma_rounded_tie_is_even(m, u, (h + f) as int);
            }
        } else if e < field {
            // the double lies below the binade of the number
            assert(h * e + f < field * h) by (nonlinear_arith)
                requires
                    e + 1 <= field,
                    f < h,
            {
            }
            lemma_scaled_of_fields(field, 0);
            lemma_scaled_magnitude_increases(d as nat, field * h);
            lemma_rounded_is_nearest(m, u, q);
            assert(h * step <= q * step) by (nonlinear_arith)
                requires
                    h <= q,
                    step > 0,
            {
            }
            assert(q * u <= m);
            assert(distance(q * u, m as int) * top >= near * top) by (nonlinear_arith)
                requires
                    distance(q * u, m as int) >= near,
                    top > 0,
            {
            }
            assert(q * step <= target) by {
                assert((q * u) * top <= m * top) by (nonlinear_arith)
                    requires
                        q * u <= m,
                        top > 0,
                {
                }
            }
        } else {
            // the double lies above the binade of the number
            assert(h * e + f >= (field + 1) * h) by (nonlinear_arith)
                requires
                    e >= field + 1,
                    f >= 0,
            {
            }
            lemma_scaled_of_fields(field + 1, 0);
            if d > (field + 1) * h {
                lemma_scaled_magnitude_increases((field + 1) * h, d as nat);
            }
            lemma_pow2_unfold(len + 1022);
            assert(h * pow2(len + 1022) == (2 * h) * step) by (nonlinear_arith)
                requires
                    pow2(len + 1022) == 2 * step,
            {
            }
            lemma_rounded_is_nearest(m, u, q + 1);
            assert((q + 1) * step <= (2 * h) * step) by (nonlinear_arith)
                requires
                    q + 1 <= 2 * h,
                    step > 0,
            {
            }
            assert((q + 1) * u == q * u + u) by (nonlinear_arith);
            assert((q + 1) * u >= m);
            let other = distance((q + 1) * u, m as int);
            assert(other * top >= near * top) by (nonlinear_arith)
                requires
                    other >= near,
                    top > 0,
            {
            }
            assert((q + 1) * step >= target) by {
                assert(((q + 1) * u) * top >= m * top) by (nonlinear_arith)
                    requires
                        (q + 1) * u >= m,
                        top > 0,
                {
                }
            }
            if d != result && distance(s_d, target) == near * top {
                // the double is the next above the number, and as near
                assert(s_d == (q + 1) * step);
                assert(other == near) by (nonlinear_arith)
                    requires
                        other * top == near * top,
                        top > 0,
                {
                }
                if c == q + 1 {
                    assert(scaled_magnitude(result as nat) == s_d);
                } else {
                    lemma_rounded_tie_is_even(m, u, q + 1);
                }
            }
        }
    }
}

/// No double, nor infinity, lies closer to an integer than the double that
/// the integer converts to.
pub proof fn law_from_int_is_nearest(v: int, d: u64)
    requires
        !spec_is_nan(d),
    ensures
        distance(scaled_value(spec_from_int(v)), v * pow2(1074)) <= distance(
            scaled_value(d),
            v * pow2(1074),
        ),
{
    lemma_pow2_values();
    let top = pow2(1074) as int;
    lemma_pow2_pos(1074);
    let m: nat = if v < 0 {
        (-v) as nat
    } else {
        v as nat
    };
    let r = spec_from_nat(m);
    lemma_from_nat_is_magnitude(m);
    let s_r = scaled_magnitude(r as nat) as int;
    let s_d = scaled_magnitude(magnitude(d)) as int;
    law_from_nat_is_nearest(m, magnitude(d) as u64);
    law_from_nat_is_nearest(m, 0);
    assert(scaled_magnitude(0) == 0);
    assert(m * top >= 0) by (nonlinear_arith)
        requires
            m >= 0,
            top > 0,
    {
    }
    assert((-v) * top == -(v * top)) by (nonlinear_arith);
    if v < 0 {
        assert(magnitude(spec_from_int(v)) == r);
        assert(spec_is_negative(spec_from_int(v)));
    } else {
        assert(magnitude(spec_from_int(v)) == r);
        assert(!spec_is_negative(spec_from_int(v)));
    }
}

/// The double that an integer converts to is never a NaN.
pub proof fn lemma_from_int_is_a_number(v: int)
    ensures
        !spec_is_nan(spec_from_int(v)),
{
    let m: nat = if v < 0 {
        (-v) as nat
    } else {
        v as nat
    };
    lemma_from_nat_is_magnitude(m);
}

/// A double above the one that an integer converts to lies above the integer
/// itself, and a double below it lies below the integer: rounding moves an
/// integer past no double.
pub proof fn law_rounding_crosses_no_double(v: int, d: u64)
    requires
        !spec_is_nan(d),
    ensures
        scaled_value(spec_from_int(v)) < scaled_value(d) ==> v * pow2(1074) < scaled_value(d),
        scaled_value(spec_from_int(v)) > scaled_value(d) ==> v * pow2(1074) > scaled_value(d),
{
    law_from_int_is_nearest(v, d);
}

/// Conversion keeps the order of integers: a larger integer converts to a
/// double that is not smaller.
pub proof fn law_from_int_is_monotone(a: int, b: int)
    requires
        a <= b,
    ensures
        scaled_value(spec_from_int(a)) <= scaled_value(spec_from_int(b)),
{
    let top = pow2(1074) as int;
    lemma_pow2_pos(1074);
    lemma_from_int_is_a_number(a);
    lemma_from_int_is_a_number(b);
    law_from_int_is_nearest(a, spec_from_int(b));
    law_from_int_is_nearest(b, spec_from_int(a));
    if a < b {
        assert(a * top < b * top) by (nonlinear_arith)
            requires
                a < b,
                top > 0,
        {
        }
    }
}

} // verus!
