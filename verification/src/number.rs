//! The values of the numeric tower and the dispatcher that applies an
//! operator to a pair of them after promoting both to a common variant.
use vstd::prelude::*;
use num_bigint::BigInt;
use crate::bigint::{big_value, big_from_i64, big_clone, big_add, big_sub, big_mul, big_div, big_rem, big_neg, big_is_zero, big_to_i64, big_eq};
use crate::convert::{spec_from_int, spec_truncated, from_i64, from_big, truncated_i64, big_from_double};
use crate::double::{spec_is_finite, spec_is_zero, spec_negated, spec_approx_equal, spec_equal};
use crate::error::{ArithmeticFailure, ConversionError};
use crate::float_ops::{double_sum, double_difference, double_product, double_quotient, double_remainder, float_add, float_sub, float_mul, float_div, float_rem};
use crate::integer::{wrap, trunc_div, trunc_rem, int_add, int_sub, int_mul, int_div, int_rem, int_neg};

verus! {

/// The largest machine integer of the tower: `i64::MAX` shifted right by the
/// eight bits that tagging takes.
pub const MAX_FIXNUM: i64 = 0x007f_ffff_ffff_ffff;

/// The smallest machine integer of the tower: `i64::MIN` shifted right by the
/// eight bits that tagging takes.
pub const MIN_FIXNUM: i64 = -0x0080_0000_0000_0000;

/// The two bounds are the 64-bit bounds divided by 256, rounded down.
pub proof fn lemma_fixnum_bounds()
    ensures
        MAX_FIXNUM == i64::MAX / 256,
        MIN_FIXNUM == i64::MIN / 256,
{
}

/// Whether an integer can be held as a machine integer of the tower.
pub open spec fn in_fixnum_range(v: int) -> bool {
    MIN_FIXNUM <= v <= MAX_FIXNUM
}

/// A number: a machine integer, a double given by its bit pattern, or a big
/// integer.
#[derive(Debug)]
pub enum NumberValue {
    Int(i64),
    Float(u64),
    Big(BigInt),
}

/// What a number is, mathematically: an integer of either size by its value,
/// a double by its bit pattern.
pub enum NumberView {
    Int(int),
    Float(u64),
    Big(int),
}

/// The three variants, as the promotion table speaks of them.
pub enum NumberKind {
    Int,
    Float,
    Big,
}

impl View for NumberValue {
    type V = NumberView;

    open spec fn view(&self) -> NumberView {
        match *self {
            NumberValue::Int(n) => NumberView::Int(n as int),
            NumberValue::Float(x) => NumberView::Float(x),
            NumberValue::Big(b) => NumberView::Big(big_value(b)),
        }
    }
}

impl NumberView {
    pub open spec fn kind(self) -> NumberKind {
        match self {
            NumberView::Int(_) => NumberKind::Int,
            NumberView::Float(_) => NumberKind::Float,
            NumberView::Big(_) => NumberKind::Big,
        }
    }

    /// The double that stands for the number once it is promoted to one.
    pub open spec fn as_double(self) -> u64 {
        match self {
            NumberView::Int(n) => spec_from_int(n),
            NumberView::Float(x) => x,
            NumberView::Big(v) => spec_from_int(v),
        }
    }

    /// The value of an integer variant.
    pub open spec fn as_int(self) -> int
        recommends
            !(self is Float),
    {
        match self {
            NumberView::Int(n) => n,
            NumberView::Float(_) => 0,
            NumberView::Big(v) => v,
        }
    }
}

/// The promotion table: a double on either side makes the pair doubles, else
/// a big integer on either side makes it big integers, else it stays machine
/// integers.
pub open spec fn promoted_kind(a: NumberKind, b: NumberKind) -> NumberKind {
    if a is Float || b is Float {
        NumberKind::Float
    } else if a is Big || b is Big {
        NumberKind::Big
    } else {
        NumberKind::Int
    }
}

/// The result of an operator on two numbers, given what the operator does in
/// each promotion class. A machine integer promoted to a double is rounded to
/// the nearest one, and so is a big integer, which saturates to an infinity.
pub open spec fn combine(
    a: NumberView,
    b: NumberView,
    int_op: spec_fn(int, int) -> int,
    float_op: spec_fn(u64, u64) -> u64,
    big_op: spec_fn(int, int) -> int,
) -> NumberView {
    match promoted_kind(a.kind(), b.kind()) {
        NumberKind::Int => NumberView::Int(int_op(a.as_int(), b.as_int())),
        NumberKind::Float => NumberView::Float(float_op(a.as_double(), b.as_double())),
        NumberKind::Big => NumberView::Big(big_op(a.as_int(), b.as_int())),
    }
}

/// Whether the operator that the promotion table selects for the pair can be
/// called on the promoted operands.
pub open spec fn arith_accepts<I, F, B>(
    cur: NumberValue,
    next: NumberValue,
    int_fn: I,
    float_fn: F,
    big_fn: B,
) -> bool where I: Fn(i64, i64) -> i64, F: Fn(u64, u64) -> u64, B: Fn(BigInt, BigInt) -> BigInt {
    match (cur, next) {
        (NumberValue::Int(l), NumberValue::Int(r)) => call_requires(int_fn, (l, r)),
        (NumberValue::Big(l), NumberValue::Big(r)) => call_requires(big_fn, (l, r)),
        (NumberValue::Int(l), NumberValue::Big(r)) => forall|x: BigInt|
            big_value(x) == l ==> call_requires(big_fn, (x, r)),
        (NumberValue::Big(l), NumberValue::Int(r)) => forall|y: BigInt|
            big_value(y) == r ==> call_requires(big_fn, (l, y)),
        _ => call_requires(float_fn, (cur@.as_double(), next@.as_double())),
    }
}

/// Whether `out` is a result of the operator that the promotion table selects
/// for the pair, applied to the promoted operands.
pub open spec fn arith_yields<I, F, B>(
    cur: NumberValue,
    next: NumberValue,
    int_fn: I,
    float_fn: F,
    big_fn: B,
    out: NumberValue,
) -> bool where I: Fn(i64, i64) -> i64, F: Fn(u64, u64) -> u64, B: Fn(BigInt, BigInt) -> BigInt {
    match (cur, next) {
        (NumberValue::Int(l), NumberValue::Int(r)) => out matches NumberValue::Int(v)
            && call_ensures(int_fn, (l, r), v),
        (NumberValue::Big(l), NumberValue::Big(r)) => out matches NumberValue::Big(v)
            && call_ensures(big_fn, (l, r), v),
        (NumberValue::Int(l), NumberValue::Big(r)) => out matches NumberValue::Big(v)
            && exists|x: BigInt| big_value(x) == l && call_ensures(big_fn, (x, r), v),
        (NumberValue::Big(l), NumberValue::Int(r)) => out matches NumberValue::Big(v)
            && exists|y: BigInt| big_value(y) == r && call_ensures(big_fn, (l, y), v),
        _ => out matches NumberValue::Float(v) && call_ensures(
            float_fn,
            (cur@.as_double(), next@.as_double()),
            v,
        ),
    }
}

/// Applies an operator to two numbers: the pair is promoted to the variant
/// that the promotion table gives, and the operator for that variant is
/// applied. The result has that variant, whatever its value.
pub fn arith<I, F, B>(cur: NumberValue, next: NumberValue, int_fn: I, float_fn: F, big_fn: B) -> (out:
    NumberValue) where I: Fn(i64, i64) -> i64, F: Fn(u64, u64) -> u64, B: Fn(BigInt, BigInt) -> BigInt
    requires
        arith_accepts(cur, next, int_fn, float_fn, big_fn),
    ensures
        arith_yields(cur, next, int_fn, float_fn, big_fn, out),
        out@.kind() == promoted_kind(cur@.kind(), next@.kind()),
{
    match (cur, next) {
        (NumberValue::Int(l), NumberValue::Int(r)) => NumberValue::Int(int_fn(l, r)),
        (NumberValue::Int(l), NumberValue::Float(r)) => NumberValue::Float(
            float_fn(from_i64(l), r),
        ),
        (NumberValue::Float(l), NumberValue::Int(r)) => NumberValue::Float(
            float_fn(l, from_i64(r)),
        ),
        (NumberValue::Float(l), NumberValue::Float(r)) => NumberValue::Float(float_fn(l, r)),
        (NumberValue::Int(l), NumberValue::Big(r)) => NumberValue::Big(
            big_fn(big_from_i64(l), r),
        ),
        (NumberValue::Big(l), NumberValue::Int(r)) => NumberValue::Big(
            big_fn(l, big_from_i64(r)),
        ),
        (NumberValue::Big(l), NumberValue::Big(r)) => NumberValue::Big(big_fn(l, r)),
        (NumberValue::Float(l), NumberValue::Big(r)) => NumberValue::Float(
            float_fn(l, from_big(&r)),
        ),
        (NumberValue::Big(l), NumberValue::Float(r)) => NumberValue::Float(
            float_fn(from_big(&l), r),
        ),
    }
}

/// The sum of two numbers: wrapped at 64 bits between machine integers,
/// exact between big integers, the IEEE sum between doubles.
pub open spec fn sum(a: NumberView, b: NumberView) -> NumberView {
    combine(a, b, |l: int, r: int| wrap(l + r), |x: u64, y: u64| double_sum(x, y), |l: int, r: int| l + r)
}

/// The difference of two numbers.
pub open spec fn difference(a: NumberView, b: NumberView) -> NumberView {
    combine(
        a,
        b,
        |l: int, r: int| wrap(l - r),
        |x: u64, y: u64| double_difference(x, y),
        |l: int, r: int| l - r,
    )
}

/// The product of two numbers.
pub open spec fn product(a: NumberView, b: NumberView) -> NumberView {
    combine(
        a,
        b,
        |l: int, r: int| wrap(l * r),
        |x: u64, y: u64| double_product(x, y),
        |l: int, r: int| l * r,
    )
}

/// The quotient of two numbers; between integers it is rounded toward zero.
pub open spec fn quotient(a: NumberView, b: NumberView) -> NumberView {
    combine(
        a,
        b,
        |l: int, r: int| wrap(trunc_div(l, r)),
        |x: u64, y: u64| double_quotient(x, y),
        |l: int, r: int| trunc_div(l, r),
    )
}

/// The remainder of two numbers; it has the sign of the dividend.
pub open spec fn remainder(a: NumberView, b: NumberView) -> NumberView {
    combine(
        a,
        b,
        |l: int, r: int| trunc_rem(l, r),
        |x: u64, y: u64| double_remainder(x, y),
        |l: int, r: int| trunc_rem(l, r),
    )
}

/// Whether a division of `a` by `b` is one of integers by the integer zero.
pub open spec fn divides_by_integer_zero(a: NumberView, b: NumberView) -> bool {
    !(a is Float) && !(b is Float) && b.as_int() == 0
}

/// The number with the opposite sign, within its variant.
pub open spec fn negation(a: NumberView) -> NumberView {
    match a {
        NumberView::Int(n) => NumberView::Int(wrap(-n)),
        NumberView::Float(x) => NumberView::Float(spec_negated(x)),
        NumberView::Big(v) => NumberView::Big(-v),
    }
}

/// Whether a number is held in its smallest integer variant: a machine
/// integer within the range of the tower, or a big integer beyond it. Every
/// double counts as held so.
pub open spec fn canonical(a: NumberView) -> bool {
    match a {
        NumberView::Int(n) => in_fixnum_range(n),
        NumberView::Float(_) => true,
        NumberView::Big(v) => !in_fixnum_range(v),
    }
}

/// What narrowing does to a number: a double becomes the integer that it
/// truncates to, a big integer that fits becomes a machine integer, and an
/// infinity or a NaN has no integer to become.
pub open spec fn coerced(a: NumberView) -> Result<NumberView, ConversionError> {
    match a {
        NumberView::Int(n) => Ok(NumberView::Int(n)),
        NumberView::Float(x) => if !spec_is_finite(x) {
            Err(ConversionError::NonFinite)
        } else if in_fixnum_range(spec_truncated(x)) {
            Ok(NumberView::Int(spec_truncated(x)))
        } else {
            Ok(NumberView::Big(spec_truncated(x)))
        },
        NumberView::Big(v) => if in_fixnum_range(v) {
            Ok(NumberView::Int(v))
        } else {
            Ok(NumberView::Big(v))
        },
    }
}

/// Equality of two numbers. Integers are compared exactly. Where a double
/// takes part, the other side is promoted to a double and the two are equal
/// when at most two units in the last place apart; a big integer beyond the
/// finite doubles equals no double.
pub open spec fn numerically_equal(a: NumberView, b: NumberView) -> bool {
    if a is Float || b is Float {
        (a is Big ==> spec_is_finite(a.as_double())) && (b is Big ==> spec_is_finite(
            b.as_double(),
        )) && spec_approx_equal(a.as_double(), b.as_double())
    } else {
        a.as_int() == b.as_int()
    }
}

/// Equality of representation: the same variant holding the same value, two
/// doubles being the same when IEEE `==` says so.
pub open spec fn same_number(a: NumberView, b: NumberView) -> bool {
    match (a, b) {
        (NumberView::Int(l), NumberView::Int(r)) => l == r,
        (NumberView::Float(x), NumberView::Float(y)) => spec_equal(x, y),
        (NumberView::Big(l), NumberView::Big(r)) => l == r,
        _ => false,
    }
}

/// The view of a result that holds a number.
pub open spec fn result_view<E>(r: Result<NumberValue, E>) -> Result<NumberView, E> {
    match r {
        Ok(v) => Ok(v@),
        Err(e) => Err(e),
    }
}

impl Clone for NumberValue {
    fn clone(&self) -> (r: Self)
        ensures
            r@ == self@,
    {
        match self {
            NumberValue::Int(n) => NumberValue::Int(*n),
            NumberValue::Float(x) => NumberValue::Float(*x),
            NumberValue::Big(b) => NumberValue::Big(big_clone(b)),
        }
    }
}

impl NumberValue {
    /// The machine integer zero.
    pub fn zero() -> (r: NumberValue)
        ensures
            r@ == NumberView::Int(0),
    {
        NumberValue::Int(0)
    }

    /// Whether the number is zero; for a double, either zero.
    pub fn is_zero(&self) -> (r: bool)
        ensures
            r == match self@ {
                NumberView::Int(n) => n == 0,
                NumberView::Float(x) => spec_is_zero(x),
                NumberView::Big(v) => v == 0,
            },
    {
        match self {
            NumberValue::Int(n) => *n == 0,
            NumberValue::Float(x) => crate::double::is_zero(*x),
            NumberValue::Big(b) => big_is_zero(b),
        }
    }

    /// The number with the opposite sign, in the same variant.
    pub fn neg(self) -> (r: NumberValue)
        ensures
            r@ == negation(self@),
    {
        match self {
            NumberValue::Int(n) => NumberValue::Int(int_neg(n)),
            NumberValue::Float(x) => NumberValue::Float(crate::double::negated(x)),
            NumberValue::Big(b) => NumberValue::Big(big_neg(b)),
        }
    }

    /// Narrows a number to the smallest integer variant that holds it. A
    /// double is truncated toward zero; an infinity or a NaN is refused.
    pub fn coerce_integer(self) -> (r: Result<NumberValue, ConversionError>)
        ensures
            result_view(r) == coerced(self@),
            r matches Ok(v) ==> !(v@ is Float) && (canonical(self@) || !(self@ is Int) ==> canonical(
                v@,
            )),
    {
        match self {
            NumberValue::Float(x) => {
                if !crate::double::is_finite(x) {
                    return Err(ConversionError::NonFinite);
                }
                match truncated_i64(x) {
                    Some(n) => {
                        if MIN_FIXNUM <= n && n <= MAX_FIXNUM {
                            return Ok(NumberValue::Int(n));
                        }
                    },
                    None => {},
                }
                Ok(NumberValue::Big(big_from_double(x)))
            },
            NumberValue::Big(b) => {
                match big_to_i64(&b) {
                    Some(n) => {
                        if MIN_FIXNUM <= n && n <= MAX_FIXNUM {
                            return Ok(NumberValue::Int(n));
                        }
                    },
                    None => {},
                }
                Ok(NumberValue::Big(b))
            },
            NumberValue::Int(n) => Ok(NumberValue::Int(n)),
        }
    }

    /// Whether the number equals a machine integer.
    pub fn eq_int(&self, other: i64) -> (r: bool)
        ensures
            r == numerically_equal(self@, NumberView::Int(other as int)),
    {
        match self {
            NumberValue::Int(n) => *n == other,
            NumberValue::Float(x) => crate::double::approx_equal(*x, from_i64(other)),
            NumberValue::Big(b) => big_eq(b, &big_from_i64(other)),
        }
    }

    /// Whether the number equals a double, up to two units in the last place.
    pub fn eq_float(&self, other: u64) -> (r: bool)
        ensures
            r == numerically_equal(self@, NumberView::Float(other)),
    {
        match self {
            NumberValue::Int(n) => crate::double::approx_equal(from_i64(*n), other),
            NumberValue::Float(x) => crate::double::approx_equal(*x, other),
            NumberValue::Big(b) => {
                let d: u64 = from_big(b);
                crate::double::is_finite(d) && crate::double::approx_equal(d, other)
            },
        }
    }

    /// Whether the number equals a big integer.
    pub fn eq_big(&self, other: &BigInt) -> (r: bool)
        ensures
            r == numerically_equal(self@, NumberView::Big(big_value(*other))),
    {
        match self {
            NumberValue::Int(n) => big_eq(&big_from_i64(*n), other),
            NumberValue::Float(x) => {
                let d: u64 = from_big(other);
                crate::double::is_finite(d) && crate::double::approx_equal(*x, d)
            },
            NumberValue::Big(b) => big_eq(b, other),
        }
    }

    /// Whether two numbers are equal, whatever their variants.
    pub fn equals(&self, other: &NumberValue) -> (r: bool)
        ensures
            r == numerically_equal(self@, other@),
    {
        match other {
            NumberValue::Int(n) => self.eq_int(*n),
            NumberValue::Float(x) => self.eq_float(*x),
            NumberValue::Big(b) => self.eq_big(b),
        }
    }

    /// The sum of two numbers.
    pub fn add(self, rhs: NumberValue) -> (r: NumberValue)
        ensures
            r@ == sum(self@, rhs@),
    {
        arith(self, rhs, int_add, float_add, big_add)
    }

    /// The difference of two numbers.
    pub fn sub(self, rhs: NumberValue) -> (r: NumberValue)
        ensures
            r@ == difference(self@, rhs@),
    {
        arith(self, rhs, int_sub, float_sub, big_sub)
    }

    /// The product of two numbers.
    pub fn mul(self, rhs: NumberValue) -> (r: NumberValue)
        ensures
            r@ == product(self@, rhs@),
    {
        arith(self, rhs, int_mul, float_mul, big_mul)
    }

    /// Whether the number is an integer variant that holds zero.
    pub fn is_integer_zero(&self) -> (r: bool)
        ensures
            r == (!(self@ is Float) && self@.as_int() == 0),
    {
        match self {
            NumberValue::Int(n) => *n == 0,
            NumberValue::Float(_) => false,
            NumberValue::Big(b) => big_is_zero(b),
        }
    }

    /// The quotient of two numbers. Dividing an integer by an integer zero
    /// fails; with a double on either side the division is that of doubles,
    /// which has a result for every divisor.
    pub fn div(self, rhs: NumberValue) -> (r: Result<NumberValue, ArithmeticFailure>)
        ensures
            result_view(r) == (if divides_by_integer_zero(self@, rhs@) {
                Err(ArithmeticFailure::DivisionByZero)
            } else {
                Ok(quotient(self@, rhs@))
            }),
    {
        let integers: bool = match self {
            NumberValue::Float(_) => false,
            _ => true,
        };
        if integers && rhs.is_integer_zero() {
            Err(ArithmeticFailure::DivisionByZero)
        } else {
            Ok(arith(self, rhs, int_div, float_div, big_div))
        }
    }

    /// The remainder of two numbers, under the same rule for a zero divisor
    /// as the quotient.
    pub fn rem(self, rhs: NumberValue) -> (r: Result<NumberValue, ArithmeticFailure>)
        ensures
            result_view(r) == (if divides_by_integer_zero(self@, rhs@) {
                Err(ArithmeticFailure::DivisionByZero)
            } else {
                Ok(remainder(self@, rhs@))
            }),
    {
        let integers: bool = match self {
            NumberValue::Float(_) => false,
            _ => true,
        };
        if integers && rhs.is_integer_zero() {
            Err(ArithmeticFailure::DivisionByZero)
        } else {
            Ok(arith(self, rhs, int_rem, float_rem, big_rem))
        }
    }
}

} // verus!
