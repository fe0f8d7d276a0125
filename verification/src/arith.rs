//! The variadic arithmetic and comparison procedures: each takes a leading
//! operand, where it has one, and an ordered sequence of further operands,
//! which it works through from left to right.
use vstd::prelude::*;
use crate::error::ArithmeticFailure;
use crate::integer::{trunc_rem, int_rem};
use crate::number::{NumberValue, NumberView, sum, difference, product, quotient, remainder as remainder_of, negation, divides_by_integer_zero, numerically_equal, result_view};
use crate::order::{precedes, precedes_or_equals, follows, follows_or_equals};

verus! {

/// The views of a sequence of numbers, in order.
pub open spec fn views(s: Seq<NumberValue>) -> Seq<NumberView> {
    s.map_values(|v: NumberValue| v@)
}

/// The sum of `init` and the numbers of `rest`, added from left to right.
pub open spec fn sum_of(init: NumberView, rest: Seq<NumberView>) -> NumberView {
    rest.fold_left(init, |acc: NumberView, x: NumberView| sum(acc, x))
}

/// `init` less the numbers of `rest`, subtracted from left to right.
pub open spec fn difference_of(init: NumberView, rest: Seq<NumberView>) -> NumberView {
    rest.fold_left(init, |acc: NumberView, x: NumberView| difference(acc, x))
}

/// The product of `init` and the numbers of `rest`, multiplied from left to right.
pub open spec fn product_of(init: NumberView, rest: Seq<NumberView>) -> NumberView {
    rest.fold_left(init, |acc: NumberView, x: NumberView| product(acc, x))
}

/// One division of a running quotient: a failure stays, and dividing an
/// integer by an integer zero is one.
pub open spec fn quotient_step(acc: Result<NumberView, ArithmeticFailure>, x: NumberView) -> Result<
    NumberView,
    ArithmeticFailure,
> {
    match acc {
        Ok(a) => if divides_by_integer_zero(a, x) {
            Err(ArithmeticFailure::DivisionByZero)
        } else {
            Ok(quotient(a, x))
        },
        Err(e) => Err(e),
    }
}

/// `init` divided by the numbers of `rest`, from left to right.
pub open spec fn quotient_of(init: NumberView, rest: Seq<NumberView>) -> Result<
    NumberView,
    ArithmeticFailure,
> {
    rest.fold_left(
        Ok(init),
        |acc: Result<NumberView, ArithmeticFailure>, x: NumberView| quotient_step(acc, x),
    )
}

/// The four order relations.
#[derive(Debug, Clone, Copy, PartialEq, Eq, Structural)]
pub enum Relation {
    Less,
    LessOrEqual,
    Greater,
    GreaterOrEqual,
}

/// Whether `a` stands in the relation to `b`.
pub open spec fn related(rel: Relation, a: NumberView, b: NumberView) -> bool {
    match rel {
        Relation::Less => precedes(a, b),
        Relation::LessOrEqual => precedes_or_equals(a, b),
        Relation::Greater => follows(a, b),
        Relation::GreaterOrEqual => follows_or_equals(a, b),
    }
}

/// Whether every number of the sequence `first, rest[0], rest[1], ..` stands
/// in the relation to the one right after it.
pub open spec fn chain_holds(rel: Relation, first: NumberView, rest: Seq<NumberView>) -> bool {
    forall|i: int| 0 <= i < rest.len() ==> #[trigger] link_holds(rel, first, rest, i)
}

/// Whether `rest[i]` stands in the relation that the chain asks for to the
/// number right before it, which for `rest[0]` is `first`.
pub open spec fn link_holds(rel: Relation, first: NumberView, rest: Seq<NumberView>, i: int) -> bool {
    related(
        rel,
        if i == 0 {
            first
        } else {
            rest[i - 1]
        },
        rest[i],
    )
}

/// The larger of two numbers; the second where they are equal or have no order.
pub open spec fn larger(x: NumberView, y: NumberView) -> NumberView {
    if follows(x, y) {
        x
    } else {
        y
    }
}

/// The smaller of two numbers; the second where they are equal or have no order.
pub open spec fn smaller(x: NumberView, y: NumberView) -> NumberView {
    if precedes(x, y) {
        x
    } else {
        y
    }
}

/// The running maximum of `first` and then the numbers of `rest`.
pub open spec fn largest_of(first: NumberView, rest: Seq<NumberView>) -> NumberView {
    rest.fold_left(first, |acc: NumberView, y: NumberView| larger(acc, y))
}

/// The running minimum of `first` and then the numbers of `rest`.
pub open spec fn smallest_of(first: NumberView, rest: Seq<NumberView>) -> NumberView {
    rest.fold_left(first, |acc: NumberView, y: NumberView| smaller(acc, y))
}

/// A fold over one more element is one more application of the operator.
pub proof fn lemma_fold_left_step<A, B>(s: Seq<A>, i: int, init: B, f: spec_fn(B, A) -> B)
    requires
        0 <= i < s.len(),
    ensures
        s.take(i + 1).fold_left(init, f) == f(s.take(i).fold_left(init, f), s[i]),
{
    assert(s.take(i + 1).drop_last() =~= s.take(i));
}

/// Once a division has failed, the rest of the divisors change nothing.
pub proof fn lemma_quotient_failure_stays(init: NumberView, s: Seq<NumberView>, i: int)
    requires
        0 <= i <= s.len(),
        quotient_of(init, s.take(i)) is Err,
    ensures
        quotient_of(init, s) == quotient_of(init, s.take(i)),
    decreases s.len() - i,
{
    if i < s.len() {
        lemma_fold_left_step(
            s,
            i,
            Ok::<NumberView, ArithmeticFailure>(init),
            |acc: Result<NumberView, ArithmeticFailure>, x: NumberView| quotient_step(acc, x),
        );
        lemma_quotient_failure_stays(init, s, i + 1);
    } else {
        assert(s.take(i) =~= s);
    }
}

/// A chain holds when it holds up to its last link and the last link holds.
pub proof fn lemma_chain_step(rel: Relation, first: NumberView, rest: Seq<NumberView>, i: int)
    requires
        0 <= i < rest.len(),
    ensures
        chain_holds(rel, first, rest.take(i + 1)) == (chain_holds(rel, first, rest.take(i))
            && link_holds(rel, first, rest, i)),
{
    let longer = rest.take(i + 1);
    let shorter = rest.take(i);
    assert(link_holds(rel, first, longer, i) == link_holds(rel, first, rest, i));
    if chain_holds(rel, first, longer) {
        assert forall|k: int| 0 <= k < shorter.len() implies #[trigger] link_holds(
            rel,
            first,
            shorter,
            k,
        ) by {
            assert(link_holds(rel, first, longer, k));
        }
    }
    if chain_holds(rel, first, shorter) && link_holds(rel, first, rest, i) {
        assert forall|k: int| 0 <= k < longer.len() implies #[trigger] link_holds(
            rel,
            first,
            longer,
            k,
        ) by {
            if k < i {
                assert(link_holds(rel, first, shorter, k));
            }
        }
    }
}

/// A chain that holds, holds up to each of its links.
pub proof fn lemma_chain_prefix(rel: Relation, first: NumberView, rest: Seq<NumberView>, i: int)
    requires
        0 <= i <= rest.len(),
        chain_holds(rel, first, rest),
    ensures
        chain_holds(rel, first, rest.take(i)),
{
    let shorter = rest.take(i);
    assert forall|k: int| 0 <= k < shorter.len() implies #[trigger] link_holds(
        rel,
        first,
        shorter,
        k,
    ) by {
        assert(link_holds(rel, first, rest, k));
    }
}

/// `+`: the sum of the numbers, 0 for none.
pub fn add(vars: &[NumberValue]) -> (r: NumberValue)
    ensures
        r@ == sum_of(NumberView::Int(0), views(vars@)),
        vars@.len() == 0 ==> r@ == NumberView::Int(0),
{
    let mut acc = NumberValue::Int(0);
    let mut i: usize = 0;
    while i < vars.len()
        invariant
            i <= vars.len(),
            acc@ == sum_of(NumberView::Int(0), views(vars@).take(i as int)),
        decreases vars.len() - i,
    {
        proof {
            lemma_fold_left_step(
                views(vars@),
                i as int,
                NumberView::Int(0),
                |acc: NumberView, x: NumberView| sum(acc, x),
            );
        }
        acc = acc.add(vars[i].clone());
        i = i + 1;
    }
    proof {
        assert(views(vars@).take(i as int) =~= views(vars@));
    }
    acc
}

/// `-`: 0 for no operand at all, the negation of a single operand, and else
/// the first operand less all the others.
pub fn sub(number: Option<NumberValue>, numbers: &[NumberValue]) -> (r: NumberValue)
    ensures
        r@ == match number {
            None => NumberView::Int(0),
            Some(first) => if numbers@.len() == 0 {
                negation(first@)
            } else {
                difference_of(first@, views(numbers@))
            },
        },
{
    match number {
        None => NumberValue::Int(0),
        Some(first) => {
            if numbers.len() == 0 {
                return first.neg();
            }
            let ghost init = first@;
            let mut acc = first;
            let mut i: usize = 0;
            while i < numbers.len()
                invariant
                    i <= numbers.len(),
                    acc@ == difference_of(init, views(numbers@).take(i as int)),
                decreases numbers.len() - i,
            {
                proof {
                    lemma_fold_left_step(
                        views(numbers@),
                        i as int,
                        init,
                        |acc: NumberView, x: NumberView| difference(acc, x),
                    );
                }
                acc = acc.sub(numbers[i].clone());
                i = i + 1;
            }
            proof {
                assert(views(numbers@).take(i as int) =~= views(numbers@));
            }
            acc
        },
    }
}

/// `*`: the product of the numbers, 1 for none.
pub fn mul(numbers: &[NumberValue]) -> (r: NumberValue)
    ensures
        r@ == product_of(NumberView::Int(1), views(numbers@)),
        numbers@.len() == 0 ==> r@ == NumberView::Int(1),
{
    let mut acc = NumberValue::Int(1);
    let mut i: usize = 0;
    while i < numbers.len()
        invariant
            i <= numbers.len(),
            acc@ == product_of(NumberView::Int(1), views(numbers@).take(i as int)),
        decreases numbers.len() - i,
    {
        proof {
            lemma_fold_left_step(
                views(numbers@),
                i as int,
                NumberView::Int(1),
                |acc: NumberView, x: NumberView| product(acc, x),
            );
        }
        acc = acc.mul(numbers[i].clone());
        i = i + 1;
    }
    proof {
        assert(views(numbers@).take(i as int) =~= views(numbers@));
    }
    acc
}

/// `/`: the number divided by each divisor in turn, the number itself for
/// none. The first division of an integer by an integer zero fails the whole.
pub fn div(number: NumberValue, divisors: &[NumberValue]) -> (r: Result<
    NumberValue,
    ArithmeticFailure,
>)
    ensures
        result_view(r) == quotient_of(number@, views(divisors@)),
        divisors@.len() == 0 ==> result_view(r) == Ok::<NumberView, ArithmeticFailure>(number@),
{
    let ghost init = number@;
    let mut acc = number;
    let mut i: usize = 0;
    while i < divisors.len()
        invariant
            i <= divisors.len(),
            init == number@,
            quotient_of(init, views(divisors@).take(i as int)) == Ok::<
                NumberView,
                ArithmeticFailure,
            >(acc@),
        decreases divisors.len() - i,
    {
        proof {
            lemma_fold_left_step(
                views(divisors@),
                i as int,
                Ok::<NumberView, ArithmeticFailure>(init),
                |acc: Result<NumberView, ArithmeticFailure>, x: NumberView| quotient_step(acc, x),
            );
        }
        let divisor = divisors[i].clone();
        assert(divisor@ == views(divisors@)[i as int]);
        match acc.div(divisor) {
            Ok(q) => {
                acc = q;
            },
            Err(e) => {
                proof {
                    lemma_quotient_failure_stays(init, views(divisors@), i + 1);
                }
                return Err(e);
            },
        }
        i = i + 1;
    }
    proof {
        assert(views(divisors@).take(i as int) =~= views(divisors@));
    }
    Ok(acc)
}

/// `1+`: the number plus the machine integer 1.
pub fn add_one(number: NumberValue) -> (r: NumberValue)
    ensures
        r@ == sum(number@, NumberView::Int(1)),
{
    number.add(NumberValue::Int(1))
}

/// `1-`: the number less the machine integer 1.
pub fn sub_one(number: NumberValue) -> (r: NumberValue)
    ensures
        r@ == difference(number@, NumberView::Int(1)),
{
    number.sub(NumberValue::Int(1))
}

/// `=`: whether every one of `numbers` equals `number`; true for none.
pub fn num_eq(number: NumberValue, numbers: &[NumberValue]) -> (r: bool)
    ensures
        r == forall|i: int|
            0 <= i < numbers@.len() ==> numerically_equal(#[trigger] numbers@[i]@, number@),
{
    let mut i: usize = 0;
    while i < numbers.len()
        invariant
            i <= numbers.len(),
            forall|j: int| 0 <= j < i ==> numerically_equal(#[trigger] numbers@[j]@, number@),
        decreases numbers.len() - i,
    {
        let same: bool = match &number {
            NumberValue::Int(n) => numbers[i].eq_int(*n),
            NumberValue::Float(x) => numbers[i].eq_float(*x),
            NumberValue::Big(b) => numbers[i].eq_big(b),
        };
        if !same {
            return false;
        }
        i = i + 1;
    }
    true
}

/// `/=`: whether none of `numbers` equals `number`; true for none.
pub fn num_ne(number: NumberValue, numbers: &[NumberValue]) -> (r: bool)
    ensures
        r == forall|i: int|
            0 <= i < numbers@.len() ==> !numerically_equal(#[trigger] numbers@[i]@, number@),
{
    let mut i: usize = 0;
    while i < numbers.len()
        invariant
            i <= numbers.len(),
            forall|j: int| 0 <= j < i ==> !numerically_equal(#[trigger] numbers@[j]@, number@),
        decreases numbers.len() - i,
    {
        let same: bool = match &number {
            NumberValue::Int(n) => numbers[i].eq_int(*n),
            NumberValue::Float(x) => numbers[i].eq_float(*x),
            NumberValue::Big(b) => numbers[i].eq_big(b),
        };
        if same {
            return false;
        }
        i = i + 1;
    }
    true
}

/// Whether `a` stands in the relation to `b`.
pub fn holds(rel: Relation, a: &NumberValue, b: &NumberValue) -> (r: bool)
    ensures
        r == related(rel, a@, b@),
{
    match rel {
        Relation::Less => crate::order::less(a, b),
        Relation::LessOrEqual => crate::order::less_or_equal(a, b),
        Relation::Greater => crate::order::greater(a, b),
        Relation::GreaterOrEqual => crate::order::greater_or_equal(a, b),
    }
}

/// Whether the relation holds all along the chain `number, numbers[0],
/// numbers[1], ..`, each number being held against the one right before it.
pub fn chain(rel: Relation, number: &NumberValue, numbers: &[NumberValue]) -> (r: bool)
    ensures
        r == chain_holds(rel, number@, views(numbers@)),
{
    let mut i: usize = 0;
    while i < numbers.len()
        invariant
            i <= numbers.len(),
            chain_holds(rel, number@, views(numbers@).take(i as int)),
        decreases numbers.len() - i,
    {
        let ok: bool = if i == 0 {
            holds(rel, number, &numbers[i])
        } else {
            holds(rel, &numbers[i - 1], &numbers[i])
        };
        proof {
            lemma_chain_step(rel, number@, views(numbers@), i as int);
            if !ok && chain_holds(rel, number@, views(numbers@)) {
                lemma_chain_prefix(rel, number@, views(numbers@), i + 1);
            }
        }
        if !ok {
            return false;
        }
        i = i + 1;
    }
    proof {
        assert(views(numbers@).take(i as int) =~= views(numbers@));
    }
    true
}

/// `<`: whether the numbers strictly increase along the chain.
pub fn less_than(number: NumberValue, numbers: &[NumberValue]) -> (r: bool)
    ensures
        r == chain_holds(Relation::Less, number@, views(numbers@)),
{
    chain(Relation::Less, &number, numbers)
}

/// `<=`: whether the numbers never decrease along the chain.
pub fn less_than_or_eq(number: NumberValue, numbers: &[NumberValue]) -> (r: bool)
    ensures
        r == chain_holds(Relation::LessOrEqual, number@, views(numbers@)),
{
    chain(Relation::LessOrEqual, &number, numbers)
}

/// `>`: whether the numbers strictly decrease along the chain.
pub fn greater_than(number: NumberValue, numbers: &[NumberValue]) -> (r: bool)
    ensures
        r == chain_holds(Relation::Greater, number@, views(numbers@)),
{
    chain(Relation::Greater, &number, numbers)
}

/// `>=`: whether the numbers never increase along the chain.
pub fn greater_than_or_eq(number: NumberValue, numbers: &[NumberValue]) -> (r: bool)
    ensures
        r == chain_holds(Relation::GreaterOrEqual, number@, views(numbers@)),
{
    chain(Relation::GreaterOrEqual, &number, numbers)
}

/// Bitwise or of machine integers, 0 for none.
pub fn logior(ints: &[i64]) -> (r: i64)
    ensures
        r == ints@.fold_left(0i64, |acc: i64, x: i64| acc | x),
{
    let mut acc: i64 = 0;
    let mut i: usize = 0;
    while i < ints.len()
        invariant
            i <= ints.len(),
            acc == ints@.take(i as int).fold_left(0i64, |acc: i64, x: i64| acc | x),
        decreases ints.len() - i,
    {
        proof {
            lemma_fold_left_step(ints@, i as int, 0i64, |acc: i64, x: i64| acc | x);
        }
        acc = acc | ints[i];
        i = i + 1;
    }
    proof {
        assert(ints@.take(i as int) =~= ints@);
    }
    acc
}

/// Bitwise and of machine integers, all bits set for none.
pub fn logand(ints: &[i64]) -> (r: i64)
    ensures
        r == ints@.fold_left(-1i64, |acc: i64, x: i64| acc & x),
{
    let mut acc: i64 = -1;
    let mut i: usize = 0;
    while i < ints.len()
        invariant
            i <= ints.len(),
            acc == ints@.take(i as int).fold_left(-1i64, |acc: i64, x: i64| acc & x),
        decreases ints.len() - i,
    {
        proof {
            lemma_fold_left_step(ints@, i as int, -1i64, |acc: i64, x: i64| acc & x);
        }
        acc = acc & ints[i];
        i = i + 1;
    }
    proof {
        assert(ints@.take(i as int) =~= ints@);
    }
    acc
}

/// `mod`: the remainder of `x` by `y` in the tower; it has the sign of `x`.
/// An integer zero under an integer fails.
pub fn modulo(x: NumberValue, y: NumberValue) -> (r: Result<NumberValue, ArithmeticFailure>)
    ensures
        result_view(r) == (if divides_by_integer_zero(x@, y@) {
            Err(ArithmeticFailure::DivisionByZero)
        } else {
            Ok(remainder_of(x@, y@))
        }),
{
    x.rem(y)
}

/// `%`: the remainder of machine integers; it has the sign of `x`. A zero
/// divisor fails.
pub fn remainder(x: i64, y: i64) -> (r: Result<i64, ArithmeticFailure>)
    ensures
        r == (if y == 0 {
            Err::<i64, ArithmeticFailure>(ArithmeticFailure::DivisionByZero)
        } else {
            Ok(trunc_rem(x as int, y as int) as i64)
        }),
{
    if y == 0 {
        Err(ArithmeticFailure::DivisionByZero)
    } else {
        Ok(int_rem(x, y))
    }
}

/// The larger of two numbers, the second on a tie.
pub fn max_val(x: NumberValue, y: &NumberValue) -> (r: NumberValue)
    ensures
        r@ == larger(x@, y@),
{
    if crate::order::greater(&x, y) {
        x
    } else {
        y.clone()
    }
}

/// The smaller of two numbers, the second on a tie.
pub fn min_val(x: NumberValue, y: &NumberValue) -> (r: NumberValue)
    ensures
        r@ == smaller(x@, y@),
{
    if crate::order::less(&x, y) {
        x
    } else {
        y.clone()
    }
}

/// The largest of the numbers: the running maximum from left to right, in
/// which a later number replaces an earlier one that is not larger.
pub fn max(number: NumberValue, numbers: &[NumberValue]) -> (r: NumberValue)
    ensures
        r@ == largest_of(number@, views(numbers@)),
{
    let ghost init = number@;
    let mut acc = number;
    let mut i: usize = 0;
    while i < numbers.len()
        invariant
            i <= numbers.len(),
            acc@ == largest_of(init, views(numbers@).take(i as int)),
        decreases numbers.len() - i,
    {
        proof {
            lemma_fold_left_step(
                views(numbers@),
                i as int,
                init,
                |acc: NumberView, y: NumberView| larger(acc, y),
            );
        }
        acc = max_val(acc, &numbers[i]);
        i = i + 1;
    }
    proof {
        assert(views(numbers@).take(i as int) =~= views(numbers@));
    }
    acc
}

/// The smallest of the numbers: the running minimum from left to right, in
/// which a later number replaces an earlier one that is not smaller.
pub fn min(number: NumberValue, numbers: &[NumberValue]) -> (r: NumberValue)
    ensures
        r@ == smallest_of(number@, views(numbers@)),
{
    let ghost init = number@;
    let mut acc = number;
    let mut i: usize = 0;
    while i < numbers.len()
        invariant
            i <= numbers.len(),
            acc@ == smallest_of(init, views(numbers@).take(i as int)),
        decreases numbers.len() - i,
    {
        proof {
            lemma_fold_left_step(
                views(numbers@),
                i as int,
                init,
                |acc: NumberView, y: NumberView| smaller(acc, y),
            );
        }
        acc = min_val(acc, &numbers[i]);
        i = i + 1;
    }
    proof {
        assert(views(numbers@).take(i as int) =~= views(numbers@));
    }
    acc
}

} // verus!
