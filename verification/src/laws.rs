//! Laws of the tower, stated over the models that the contracts speak of.
use vstd::prelude::*;
use vstd::arithmetic::power2::{pow2, lemma_pow2_pos};
use crate::arith::{sum_of, product_of, quotient_of, quotient_step, larger, smaller};
use crate::convert::{spec_from_int, spec_truncated, lemma_from_int_exact, lemma_truncated_fields, lemma_pow2_values};
use crate::double::{HIDDEN_BIT, magnitude, scaled_magnitude, scaled_value, spec_is_finite};
use crate::error::{ArithmeticFailure, ConversionError};
use crate::number::{NumberView, MAX_FIXNUM, MIN_FIXNUM, in_fixnum_range, promoted_kind, combine, sum, difference, product, quotient, remainder, coerced, numerically_equal, divides_by_integer_zero};
use crate::order::{precedes, precedes_or_equals, follows, follows_or_equals, order_of_numbers};

verus! {

/// The variant of a result is the one that the promotion table gives for the
/// variants of the operands, whatever the operator: machine integers stay
/// machine integers, a big integer with any integer gives a big integer, and
/// a double with anything gives a double.
pub proof fn law_promotion(
    a: NumberView,
    b: NumberView,
    int_op: spec_fn(int, int) -> int,
    float_op: spec_fn(u64, u64) -> u64,
    big_op: spec_fn(int, int) -> int,
)
    ensures
        combine(a, b, int_op, float_op, big_op).kind() == promoted_kind(a.kind(), b.kind()),
        a is Int && b is Int ==> combine(a, b, int_op, float_op, big_op) is Int,
        a is Int && b is Big ==> combine(a, b, int_op, float_op, big_op) is Big,
        a is Big && b is Int ==> combine(a, b, int_op, float_op, big_op) is Big,
        a is Big && b is Big ==> combine(a, b, int_op, float_op, big_op) is Big,
        a is Float || b is Float ==> combine(a, b, int_op, float_op, big_op) is Float,
{
}

/// The five operations of the tower follow the promotion table.
pub proof fn law_operations_promote(a: NumberView, b: NumberView)
    ensures
        sum(a, b).kind() == promoted_kind(a.kind(), b.kind()),
        difference(a, b).kind() == promoted_kind(a.kind(), b.kind()),
        product(a, b).kind() == promoted_kind(a.kind(), b.kind()),
        quotient(a, b).kind() == promoted_kind(a.kind(), b.kind()),
        remainder(a, b).kind() == promoted_kind(a.kind(), b.kind()),
{
}

/// With no operands a sum is the machine integer 0 and a product the machine
/// integer 1, and a number divided by nothing is the number itself.
pub proof fn law_identities(x: NumberView)
    ensures
        sum_of(NumberView::Int(0), Seq::<NumberView>::empty()) == NumberView::Int(0),
        product_of(NumberView::Int(1), Seq::<NumberView>::empty()) == NumberView::Int(1),
        quotient_of(x, Seq::<NumberView>::empty()) == Ok::<NumberView, ArithmeticFailure>(x),
{
}

/// Dividing any integer, machine or big, by the machine integer zero fails,
/// and so does a division that any later divisor follows.
pub proof fn law_integer_division_by_zero(x: NumberView, later: Seq<NumberView>)
    requires
        !(x is Float),
    ensures
        quotient_of(x, seq![NumberView::Int(0)]) == Err::<NumberView, ArithmeticFailure>(
            ArithmeticFailure::DivisionByZero,
        ),
        quotient_of(x, seq![NumberView::Int(0)] + later) == Err::<NumberView, ArithmeticFailure>(
            ArithmeticFailure::DivisionByZero,
        ),
{
    let zero = seq![NumberView::Int(0)];
    let all = zero + later;
    assert(divides_by_integer_zero(x, NumberView::Int(0)));
    assert(zero.drop_last() =~= Seq::<NumberView>::empty());
    assert(quotient_of(x, zero) == quotient_step(
        quotient_of(x, Seq::<NumberView>::empty()),
        NumberView::Int(0),
    ));
    assert(all.take(1) =~= zero);
    crate::arith::lemma_quotient_failure_stays(x, all, 1);
}

/// A machine integer of at most 53 binary digits survives the way through a
/// double: narrowing the double that it converts to gives it back.
pub proof fn law_round_trip(n: int)
    requires
        -2 * HIDDEN_BIT < n < 2 * HIDDEN_BIT,
    ensures
        coerced(NumberView::Float(spec_from_int(n))) == Ok::<NumberView, ConversionError>(
            NumberView::Int(n),
        ),
{
    lemma_from_int_exact(n);
}

/// Narrowing gives a machine integer for every big integer that fits in one,
/// and never leaves a big integer that would fit. Narrowing what has been
/// narrowed changes nothing.
pub proof fn law_coerce_narrows(a: NumberView)
    ensures
        a is Big && in_fixnum_range(a.as_int()) ==> coerced(a) == Ok::<NumberView, ConversionError>(
            NumberView::Int(a.as_int()),
        ),
        match coerced(a) {
            Ok(NumberView::Big(v)) => !in_fixnum_range(v),
            Ok(NumberView::Int(v)) => a is Int || in_fixnum_range(v),
            Ok(NumberView::Float(_)) => false,
            Err(_) => a is Float && !spec_is_finite(a.as_double()),
        },
        match coerced(a) {
            Ok(r) => coerced(r) == coerced(a),
            Err(_) => true,
        },
        a is Float && !spec_is_finite(a.as_double()) ==> coerced(a) is Err,
{
}

/// A multiple of a unit, or a number whose integer part in that unit is well
/// below the limit, is at most `limit` units exactly when its integer part
/// is at most `limit`.
proof fn lemma_integer_part_within(s: int, top: int, limit: int)
    requires
        0 <= s,
        0 < top,
        s % top == 0 || s / top + 1 <= limit,
    ensures
        s / top <= limit <==> s <= limit * top,
{
    let t = s / top;
    let rest = s % top;
    vstd::arithmetic::div_mod::lemma_fundamental_div_mod(s, top);
    vstd::arithmetic::div_mod::lemma_mod_bound(s, top);
    if t <= limit {
        if rest == 0 {
            assert(top * t <= limit * top) by (nonlinear_arith)
                requires
                    t <= limit,
                    top > 0,
            {
            }
        } else {
            assert(top * t + rest < (t + 1) * top) by (nonlinear_arith)
                requires
                    rest < top,
            {
            }
            assert((t + 1) * top <= limit * top) by (nonlinear_arith)
                requires
                    t + 1 <= limit,
                    top > 0,
            {
            }
        }
    } else {
        assert(top * t >= (limit + 1) * top) by (nonlinear_arith)
            requires
                t >= limit + 1,
                top > 0,
        {
        }
        assert((limit + 1) * top > limit * top) by (nonlinear_arith)
            requires
                top > 0,
        {
        }
    }
}

/// For a finite double, the integer part lies in the range of the machine
/// integers exactly when the double itself does.
pub proof fn law_fixnum_range_of_double(bits: u64)
    requires
        spec_is_finite(bits),
    ensures
        in_fixnum_range(spec_truncated(bits)) <==> MIN_FIXNUM * pow2(1074) <= scaled_value(bits)
            <= MAX_FIXNUM * pow2(1074),
{
    lemma_pow2_values();
    let m = magnitude(bits);
    let top = pow2(1074) as int;
    lemma_pow2_pos(1074);
    let s = scaled_magnitude(m) as int;
    let t = s / top;
    lemma_truncated_fields(m);
    vstd::arithmetic::div_mod::lemma_fundamental_div_mod(s, top);
    vstd::arithmetic::div_mod::lemma_mod_bound(s, top);
    let rest = s % top;
    let bound: int = 0x0080_0000_0000_0000;
    if rest != 0 {
        let e = m / (HIDDEN_BIT as nat);
        if e >= 1075 {
            vstd::arithmetic::div_mod::lemma_mod_multiples_basic(t, top);
        }
        assert(t < 2 * HIDDEN_BIT);
    }
    assert(MAX_FIXNUM == bound - 1);
    assert(MIN_FIXNUM == -bound);
    lemma_integer_part_within(s, top, bound - 1);
    lemma_integer_part_within(s, top, bound);
    assert(t <= bound - 1 <==> s <= (bound - 1) * top);
    assert(t <= bound <==> s <= bound * top);
    assert(0 <= t) by {
        vstd::arithmetic::div_mod::lemma_div_pos_is_pos(s, top);
    }
    assert(MIN_FIXNUM * top == -(bound * top)) by (nonlinear_arith)
        requires
            MIN_FIXNUM == -bound,
    {
    }
    assert(MAX_FIXNUM * top >= 0) by (nonlinear_arith)
        requires
            top > 0,
            MAX_FIXNUM >= 0,
    {
    }
    assert(MIN_FIXNUM * top <= 0);
}

/// A big integer promoted to a double never gives a NaN, and one with more
/// than 1024 binary digits gives the infinity of its sign.
pub proof fn law_promotion_saturates(v: int)
    ensures
        !crate::double::spec_is_nan(spec_from_int(v)),
        crate::double::spec_is_negative(spec_from_int(v)) == (v < 0),
        crate::convert::bit_length(crate::bigint::abs(v)) > 1024 ==> crate::double::spec_is_infinite(
            spec_from_int(v),
        ),
{
    lemma_pow2_values();
    let m = crate::bigint::abs(v);
    crate::convert::lemma_from_nat_is_magnitude(m);
    if m > 0 {
        crate::convert::lemma_significand_range(m);
        if crate::convert::bit_length(m) > 1024 {
            assert((crate::convert::bit_length(m) + 1022) * HIDDEN_BIT >= 2047 * HIDDEN_BIT)
                by (nonlinear_arith)
                requires
                    crate::convert::bit_length(m) > 1024,
            {
            }
        }
    }
}

/// The value of a number in units of 2^-1074, in which every integer and
/// every double that is not a NaN is a whole number.
pub open spec fn exact_value(a: NumberView) -> int {
    match a {
        NumberView::Int(n) => n * pow2(1074),
        NumberView::Float(x) => scaled_value(x),
        NumberView::Big(v) => v * pow2(1074),
    }
}

/// A strict order that the tower finds between two numbers is the order of
/// their values: promoting an integer to a double for the comparison may hide
/// a difference, and never turns one around.
pub proof fn law_order_is_sound(a: NumberView, b: NumberView)
    ensures
        precedes(a, b) ==> exact_value(a) < exact_value(b),
        follows(a, b) ==> exact_value(a) > exact_value(b),
        precedes_or_equals(a, b) && !(a is Float) && !(b is Float) ==> exact_value(a)
            <= exact_value(b),
{
    let top = pow2(1074) as int;
    lemma_pow2_pos(1074);
    if a is Float && b is Float {
    } else if a is Float {
        if precedes(a, b) || follows(a, b) {
            crate::nearest::law_rounding_crosses_no_double(b.as_int(), a.as_double());
        }
    } else if b is Float {
        if precedes(a, b) || follows(a, b) {
            crate::nearest::law_rounding_crosses_no_double(a.as_int(), b.as_double());
        }
    } else {
        let x = a.as_int();
        let y = b.as_int();
        if x < y {
            assert(x * top < y * top) by (nonlinear_arith)
                requires
                    x < y,
                    top > 0,
            {
            }
        } else if x > y {
            assert(x * top > y * top) by (nonlinear_arith)
                requires
                    x > y,
                    top > 0,
            {
            }
        }
    }
}

/// Sums and differences of machine integers within the range of the tower
/// are exact: wrapping sets in only beyond 64 bits.
pub proof fn law_fixnum_sums_are_exact(a: int, b: int)
    requires
        in_fixnum_range(a),
        in_fixnum_range(b),
    ensures
        sum(NumberView::Int(a), NumberView::Int(b)) == NumberView::Int(a + b),
        difference(NumberView::Int(a), NumberView::Int(b)) == NumberView::Int(a - b),
{
}

/// On a tie the later of two numbers is taken, by the maximum and by the
/// minimum alike; so it is where the two have no order.
pub proof fn law_tie_goes_to_the_later(x: NumberView, y: NumberView)
    requires
        !precedes(x, y),
        !follows(x, y),
    ensures
        larger(x, y) == y,
        smaller(x, y) == y,
{
}

/// The maximum of two ordered numbers is not below either, and the minimum
/// not above.
pub proof fn law_larger_and_smaller(x: NumberView, y: NumberView)
    requires
        order_of_numbers(x, y) is Some,
    ensures
        larger(x, y) == x || larger(x, y) == y,
        follows_or_equals(larger(x, y), y) || larger(x, y) == y,
        precedes_or_equals(x, larger(x, y)) || larger(x, y) == x,
        smaller(x, y) == x || smaller(x, y) == y,
        precedes_or_equals(smaller(x, y), y) || smaller(x, y) == y,
        follows_or_equals(x, smaller(x, y)) || smaller(x, y) == x,
{
}

/// Two numbers that are the same in representation are equal as numbers.
pub proof fn law_same_numbers_are_equal(a: NumberView, b: NumberView)
    requires
        crate::number::same_number(a, b),
    ensures
        numerically_equal(a, b),
{
    if a is Float {
        crate::double::lemma_scaled_magnitude_order(
            magnitude(a.as_double()),
            magnitude(b.as_double()),
        );
        crate::double::lemma_scaled_magnitude_order(magnitude(a.as_double()), 0);
        crate::double::lemma_scaled_magnitude_order(magnitude(b.as_double()), 0);
    }
}

/// Equality of numbers does not depend on the side a number stands on.
pub proof fn law_equality_is_symmetric(a: NumberView, b: NumberView)
    ensures
        numerically_equal(a, b) == numerically_equal(b, a),
{
}

/// Each order relation is the converse of its opposite, and the strict ones
/// exclude equality and each other.
pub proof fn law_order_converse(a: NumberView, b: NumberView)
    ensures
        precedes(a, b) == follows(b, a),
        precedes_or_equals(a, b) == follows_or_equals(b, a),
        precedes(a, b) ==> precedes_or_equals(a, b) && !follows_or_equals(a, b),
        follows(a, b) ==> follows_or_equals(a, b) && !precedes_or_equals(a, b),
        precedes_or_equals(a, b) && follows_or_equals(a, b) ==> !precedes(a, b) && !follows(a, b),
{
}

} // verus!
