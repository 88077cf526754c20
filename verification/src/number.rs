//! The arithmetic that activities and utilities are computed with.
//!
//! Everything in this crate that scores something (how active a variable is, how useful a
//! propagator has been) is written against [`Number`], so that the scheduling and branching
//! logic does not depend on how the numbers are represented.

use vstd::prelude::*;

verus! {

/// Arithmetic on scores.
///
/// Every operation has a specification function that says what it returns; nothing is demanded
/// of the order [`Number::less_than`] here, so a type with unordered values qualifies too.
pub trait Number: Copy {
    /// The number nearest to `mantissa * 10^exponent`.
    spec fn decimal_spec(mantissa: u64, exponent: i32) -> Self;

    /// The number nearest to `n`.
    spec fn whole_spec(n: u128) -> Self;

    /// The largest finite number.
    spec fn greatest_spec() -> Self;

    /// The sum of two numbers.
    spec fn plus_spec(self, other: Self) -> Self;

    /// The difference of two numbers.
    spec fn minus_spec(self, other: Self) -> Self;

    /// The product of two numbers.
    spec fn times_spec(self, other: Self) -> Self;

    /// The quotient of two numbers.
    spec fn over_spec(self, other: Self) -> Self;

    /// The absolute value of a number.
    spec fn magnitude_spec(self) -> Self;

    /// Whether `self` is strictly less than `other`.
    spec fn less_spec(self, other: Self) -> bool;

    /// Returns the number nearest to `mantissa * 10^exponent`.
    fn decimal(mantissa: u64, exponent: i32) -> (r: Self)
        ensures
            r == Self::decimal_spec(mantissa, exponent),
    ;

    /// Returns the number nearest to `n`.
    fn whole(n: u128) -> (r: Self)
        ensures
            r == Self::whole_spec(n),
    ;

    /// Returns the largest finite number.
    fn greatest() -> (r: Self)
        ensures
            r == Self::greatest_spec(),
    ;

    /// Returns `self + other`.
    fn plus(self, other: Self) -> (r: Self)
        ensures
            r == self.plus_spec(other),
    ;

    /// Returns `self - other`.
    fn minus(self, other: Self) -> (r: Self)
        ensures
            r == self.minus_spec(other),
    ;

    /// Returns `self * other`.
    fn times(self, other: Self) -> (r: Self)
        ensures
            r == self.times_spec(other),
    ;

    /// Returns `self / other`.
    fn over(self, other: Self) -> (r: Self)
        ensures
            r == self.over_spec(other),
    ;

    /// Returns `|self|`.
    fn magnitude(self) -> (r: Self)
        ensures
            r == self.magnitude_spec(),
    ;

    /// Returns whether `self < other`.
    fn less_than(self, other: Self) -> (r: bool)
        ensures
            r == self.less_spec(other),
    ;
}

/// The number that is reached from zero by adding `step` `n` times.
pub open spec fn tally<N: Number>(step: N, n: nat) -> N
    decreases n,
{
    if n == 0 {
        N::whole_spec(0)
    } else {
        tally(step, (n - 1) as nat).plus_spec(step)
    }
}

/// Whether the number is reached from zero by adding ones.
pub open spec fn is_count<N: Number>(a: N) -> bool {
    exists|n: nat| a == #[trigger] tally(N::whole_spec(1), n)
}

/// Whether everything below the threshold is still below it once it is divided by the threshold,
/// and also once the increment, divided by the threshold too, is added.
pub open spec fn scales_below<N: Number>(increment: N, threshold: N) -> bool {
    forall|a: N|
        a.less_spec(threshold) ==> {
            &&& (#[trigger] a.over_spec(threshold)).less_spec(threshold)
            &&& a.over_spec(threshold).plus_spec(increment.over_spec(threshold)).less_spec(
                threshold,
            )
        }
}

/// A [`Number`] whose values are totally ordered.
pub trait OrderedNumber: Number {
    /// A number that no number is below.
    spec fn lowest_spec() -> Self;

    /// Returns a number that no number is below.
    fn lowest() -> (r: Self)
        ensures
            r == Self::lowest_spec(),
    ;

    /// No number is less than itself, and of two different numbers exactly one is less.
    proof fn order_is_total(a: Self, b: Self)
        ensures
            !(a.less_spec(b) && b.less_spec(a)),
            a.less_spec(b) || b.less_spec(a) || a == b,
            a == b ==> !a.less_spec(b),
    ;

    /// The order is transitive.
    proof fn order_is_transitive(a: Self, b: Self, c: Self)
        requires
            a.less_spec(b),
            b.less_spec(c),
        ensures
            a.less_spec(c),
    ;

    /// Nothing is below the lowest number.
    proof fn lowest_is_lowest(a: Self)
        ensures
            !a.less_spec(Self::lowest_spec()),
    ;

    /// Adding something that is not negative does not make a number smaller.
    proof fn sum_keeps_order(a: Self, b: Self)
        requires
            !b.less_spec(Self::whole_spec(0)),
        ensures
            !a.plus_spec(b).less_spec(a),
    ;

    /// Dividing by a positive number does not reverse the order of two numbers.
    proof fn quotient_keeps_order(a: Self, b: Self, divisor: Self)
        requires
            Self::whole_spec(0).less_spec(divisor),
            !b.less_spec(a),
        ensures
            !b.over_spec(divisor).less_spec(a.over_spec(divisor)),
    ;

    /// One over a positive number that is at most one is at least one.
    proof fn reciprocal_is_at_least_one(divisor: Self)
        requires
            Self::whole_spec(0).less_spec(divisor),
            !Self::whole_spec(1).less_spec(divisor),
        ensures
            !Self::whole_spec(1).over_spec(divisor).less_spec(Self::whole_spec(1)),
    ;

    /// Multiplying by something that is at least one does not make a number smaller that is not
    /// negative.
    proof fn product_keeps_order(a: Self, b: Self)
        requires
            !a.less_spec(Self::whole_spec(0)),
            !b.less_spec(Self::whole_spec(1)),
        ensures
            !a.times_spec(b).less_spec(a),
    ;

    /// One is not negative.
    proof fn one_is_not_negative()
        ensures
            !Self::whole_spec(1).less_spec(Self::whole_spec(0)),
    ;

    /// A count is moved up exactly to a greater one by adding their difference.
    proof fn counts_move_up_exactly(a: Self, b: Self)
        requires
            is_count(a),
            is_count(b),
            a.less_spec(b),
        ensures
            a.plus_spec(b.minus_spec(a)) == b,
    ;
}

/// Zero is a count, adding one to a count gives a count, and no count is negative.
pub proof fn lemma_counts<N: OrderedNumber>(a: N)
    requires
        is_count(a),
    ensures
        is_count(a.plus_spec(N::whole_spec(1))),
        is_count(N::whole_spec(0)),
        !a.less_spec(N::whole_spec(0)),
{
    let one = N::whole_spec(1);
    let n = choose|n: nat| a == #[trigger] tally(one, n);
    assert(tally(one, n + 1) == a.plus_spec(one));
    assert(tally(one, 0) == N::whole_spec(0));
    lemma_tally_not_negative::<N>(n);
}

proof fn lemma_tally_not_negative<N: OrderedNumber>(n: nat)
    ensures
        !tally(N::whole_spec(1), n).less_spec(N::whole_spec(0)),
    decreases n,
{
    let zero = N::whole_spec(0);
    let one = N::whole_spec(1);
    N::order_is_total(zero, zero);
    if n > 0 {
        let previous = tally(one, (n - 1) as nat);
        lemma_tally_not_negative::<N>((n - 1) as nat);
        N::one_is_not_negative();
        N::sum_keeps_order(previous, one);
        N::order_is_total(previous.plus_spec(one), zero);
        N::order_is_total(previous, zero);
        if previous.plus_spec(one).less_spec(zero) && zero.less_spec(previous) {
            N::order_is_transitive(previous.plus_spec(one), zero, previous);
        }
    }
}

} // verus!
