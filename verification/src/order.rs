//! Equality of representation and the ordering of numbers across variants.
//!
//! Numbers are ordered by value. Where a double takes part, the other side is
//! promoted to a double first; a NaN is ordered with nothing, and neither is
//! a big integer beyond the finite doubles with a double.
use vstd::prelude::*;
use vstd::std_specs::cmp::{PartialEqSpecImpl, PartialOrdSpecImpl};
use std::cmp::Ordering;
use crate::bigint::{big_eq, big_less, big_from_i64};
use crate::convert::{from_i64, from_big};
use crate::double::{spec_less, spec_equal, spec_is_finite};
use crate::number::{NumberValue, NumberView, same_number};

verus! {

/// The order of two integers.
pub open spec fn order_of_integers(a: int, b: int) -> Ordering {
    if a < b {
        Ordering::Less
    } else if a == b {
        Ordering::Equal
    } else {
        Ordering::Greater
    }
}

/// The IEEE order of two doubles; none where either is a NaN.
pub open spec fn order_of_doubles(a: u64, b: u64) -> Option<Ordering> {
    if spec_less(a, b) {
        Some(Ordering::Less)
    } else if spec_equal(a, b) {
        Some(Ordering::Equal)
    } else if spec_less(b, a) {
        Some(Ordering::Greater)
    } else {
        None
    }
}

/// The order of two numbers, where they have one.
pub open spec fn order_of_numbers(a: NumberView, b: NumberView) -> Option<Ordering> {
    if a is Float || b is Float {
        if (a is Big && !spec_is_finite(a.as_double())) || (b is Big && !spec_is_finite(
            b.as_double(),
        )) {
            None
        } else {
            order_of_doubles(a.as_double(), b.as_double())
        }
    } else {
        Some(order_of_integers(a.as_int(), b.as_int()))
    }
}

/// `a < b`.
pub open spec fn precedes(a: NumberView, b: NumberView) -> bool {
    order_of_numbers(a, b) == Some(Ordering::Less)
}

/// `a <= b`.
pub open spec fn precedes_or_equals(a: NumberView, b: NumberView) -> bool {
    order_of_numbers(a, b) matches Some(Ordering::Less | Ordering::Equal)
}

/// `a > b`.
pub open spec fn follows(a: NumberView, b: NumberView) -> bool {
    order_of_numbers(a, b) == Some(Ordering::Greater)
}

/// `a >= b`.
pub open spec fn follows_or_equals(a: NumberView, b: NumberView) -> bool {
    order_of_numbers(a, b) matches Some(Ordering::Greater | Ordering::Equal)
}

fn integer_ordering(less: bool, equal: bool) -> (r: Ordering)
    ensures
        r == (if less {
            Ordering::Less
        } else if equal {
            Ordering::Equal
        } else {
            Ordering::Greater
        }),
{
    if less {
        Ordering::Less
    } else if equal {
        Ordering::Equal
    } else {
        Ordering::Greater
    }
}

fn double_ordering(a: u64, b: u64) -> (r: Option<Ordering>)
    ensures
        r == order_of_doubles(a, b),
{
    if crate::double::less(a, b) {
        Some(Ordering::Less)
    } else if crate::double::equal(a, b) {
        Some(Ordering::Equal)
    } else if crate::double::less(b, a) {
        Some(Ordering::Greater)
    } else {
        None
    }
}

impl PartialEq for NumberValue {
    fn eq(&self, other: &NumberValue) -> (r: bool) {
        match (self, other) {
            (NumberValue::Int(a), NumberValue::Int(b)) => *a == *b,
            (NumberValue::Float(a), NumberValue::Float(b)) => crate::double::equal(*a, *b),
            (NumberValue::Big(a), NumberValue::Big(b)) => big_eq(a, b),
            _ => false,
        }
    }
}

impl PartialEqSpecImpl for NumberValue {
    open spec fn obeys_eq_spec() -> bool {
        true
    }

    open spec fn eq_spec(&self, other: &NumberValue) -> bool {
        same_number(self@, other@)
    }
}

impl PartialOrd for NumberValue {
    fn partial_cmp(&self, other: &NumberValue) -> (r: Option<Ordering>) {
        match (self, other) {
            (NumberValue::Int(a), NumberValue::Int(b)) => Some(integer_ordering(*a < *b, *a == *b)),
            (NumberValue::Int(a), NumberValue::Big(b)) => {
                let x = big_from_i64(*a);
                Some(integer_ordering(big_less(&x, b), big_eq(&x, b)))
            },
            (NumberValue::Big(a), NumberValue::Int(b)) => {
                let y = big_from_i64(*b);
                Some(integer_ordering(big_less(a, &y), big_eq(a, &y)))
            },
            (NumberValue::Big(a), NumberValue::Big(b)) => Some(
                integer_ordering(big_less(a, b), big_eq(a, b)),
            ),
            (NumberValue::Float(x), NumberValue::Float(y)) => double_ordering(*x, *y),
            (NumberValue::Int(a), NumberValue::Float(y)) => double_ordering(from_i64(*a), *y),
            (NumberValue::Float(x), NumberValue::Int(b)) => double_ordering(*x, from_i64(*b)),
            (NumberValue::Big(a), NumberValue::Float(y)) => {
                let x: u64 = from_big(a);
                if crate::double::is_finite(x) {
                    double_ordering(x, *y)
                } else {
                    None
                }
            },
            (NumberValue::Float(x), NumberValue::Big(b)) => {
                let y: u64 = from_big(b);
                if crate::double::is_finite(y) {
                    double_ordering(*x, y)
                } else {
                    None
                }
            },
        }
    }
}

impl PartialOrdSpecImpl for NumberValue {
    open spec fn obeys_partial_cmp_spec() -> bool {
        true
    }

    open spec fn partial_cmp_spec(&self, other: &NumberValue) -> Option<Ordering> {
        order_of_numbers(self@, other@)
    }
}

/// Whether `a < b`.
pub fn less(a: &NumberValue, b: &NumberValue) -> (r: bool)
    ensures
        r == precedes(a@, b@),
{
    a.lt(b)
}

/// Whether `a <= b`.
pub fn less_or_equal(a: &NumberValue, b: &NumberValue) -> (r: bool)
    ensures
        r == precedes_or_equals(a@, b@),
{
    a.le(b)
}

/// Whether `a > b`.
pub fn greater(a: &NumberValue, b: &NumberValue) -> (r: bool)
    ensures
        r == follows(a@, b@),
{
    a.gt(b)
}

/// Whether `a >= b`.
pub fn greater_or_equal(a: &NumberValue, b: &NumberValue) -> (r: bool)
    ensures
        r == follows_or_equals(a@, b@),
{
    a.ge(b)
}

} // verus!
