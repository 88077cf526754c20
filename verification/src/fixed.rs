//! A fixed-point [`Number`] with saturating arithmetic.

use crate::number::{scales_below, tally, Number, OrderedNumber};
use vstd::arithmetic::div_mod::{
    lemma_div_denominator, lemma_div_is_ordered, lemma_div_pos_is_pos, lemma_fundamental_div_mod,
};
use vstd::arithmetic::mul::lemma_mul_inequality;
use vstd::arithmetic::power::{lemma_pow0, lemma_pow_positive, pow};
use vstd::prelude::*;

verus! {

/// How many units make one.
pub const UNITS_PER_ONE: i128 = 1_000_000;

/// A number with six decimal places, stored as a count of millionths.
///
/// Results that do not fit are replaced by the nearest number that does.
#[derive(Clone, Copy, Debug, PartialEq, Eq, Structural)]
pub struct Fixed {
    /// The number, in millionths.
    pub units: i64,
}

impl Fixed {
    /// The representable number nearest to `units` millionths.
    pub open spec fn clamped(units: int) -> Fixed {
        Fixed {
            units: if units > i64::MAX {
                i64::MAX
            } else if units < i64::MIN {
                i64::MIN
            } else {
                units as i64
            },
        }
    }

    fn clamp(units: i128) -> (r: Fixed)
        ensures
            r == Fixed::clamped(units as int),
    {
        if units > i64::MAX as i128 {
            Fixed { units: i64::MAX }
        } else if units < i64::MIN as i128 {
            Fixed { units: i64::MIN }
        } else {
            Fixed { units: units as i64 }
        }
    }

    /// Returns `a / b`, rounded towards negative infinity.
    fn floor_quotient(a: i128, b: i128) -> (r: i128)
        requires
            b > 0,
            a > i128::MIN,
        ensures
            r == a as int / b as int,
    {
        if a >= 0 {
            proof {
                lemma_div_pos_is_pos(a as int, b as int);
            }
            a / b
        } else {
            let m: i128 = -a;
            let q: i128 = m / b;
            let rest: i128 = m % b;
            proof {
                lemma_fundamental_div_mod(m as int, b as int);
                lemma_div_pos_is_pos(m as int, b as int);
                assert(q <= m) by (nonlinear_arith)
                    requires
                        m == b * q + rest,
                        b >= 1,
                        rest >= 0,
                        q >= 0,
                ;
                if rest == 0 {
                    assert(a as int == (-q) * b + 0) by (nonlinear_arith)
                        requires
                            -a == b * q,
                    ;
                    vstd::arithmetic::div_mod::lemma_fundamental_div_mod_converse(
                        a as int,
                        b as int,
                        -q as int,
                        0,
                    );
                } else {
                    assert(a as int == (-q - 1) * b + (b - rest)) by (nonlinear_arith)
                        requires
                            -a == b * q + rest,
                    ;
                    vstd::arithmetic::div_mod::lemma_fundamental_div_mod_converse(
                        a as int,
                        b as int,
                        -q as int - 1,
                        b as int - rest as int,
                    );
                }
            }
            if rest == 0 {
                -q
            } else {
                -q - 1
            }
        }
    }

    /// Returns `scaled * 10^exponent` as a number of units.
    fn shifted_left(scaled: u128, exponent: u32) -> (r: Fixed)
        requires
            scaled <= u64::MAX * UNITS_PER_ONE,
        ensures
            r == Fixed::clamped(scaled * pow(10, exponent as nat)),
    {
        let mut acc: u128 = scaled;
        let mut i: u32 = 0;
        proof {
            lemma_pow0(10);
        }
        while i < exponent && acc <= i64::MAX as u128
            invariant
                i <= exponent,
                acc == scaled * pow(10, i as nat),
                acc <= u64::MAX * UNITS_PER_ONE || acc <= 10 * i64::MAX,
            decreases exponent - i,
        {
            proof {
                assert(pow(10, (i + 1) as nat) == 10 * pow(10, i as nat)) by {
                    reveal(pow);
                }
                assert(scaled * (10 * pow(10, i as nat)) == 10 * (scaled * pow(10, i as nat)))
                    by (nonlinear_arith);
            }
            acc = acc * 10;
            i = i + 1;
        }
        if acc > i64::MAX as u128 {
            proof {
                lemma_pow_monotone(i as nat, exponent as nat);
                lemma_mul_inequality(
                    pow(10, i as nat),
                    pow(10, exponent as nat),
                    scaled as int,
                );
                assert(scaled * pow(10, i as nat) <= scaled * pow(10, exponent as nat))
                    by (nonlinear_arith)
                    requires
                        pow(10, i as nat) * scaled <= pow(10, exponent as nat) * scaled,
                ;
            }
            Fixed { units: i64::MAX }
        } else {
            Fixed { units: acc as i64 }
        }
    }

    /// Returns `scaled / 10^exponent` as a number of units.
    fn shifted_right(scaled: u128, exponent: u32) -> (r: Fixed)
        requires
            scaled <= u64::MAX * UNITS_PER_ONE,
        ensures
            r == Fixed::clamped(scaled as int / pow(10, exponent as nat)),
    {
        let mut acc: u128 = scaled;
        let mut i: u32 = 0;
        proof {
            lemma_pow0(10);
        }
        while i < exponent && acc > 0
            invariant
                i <= exponent,
                acc == scaled as int / pow(10, i as nat),
                acc <= u64::MAX * UNITS_PER_ONE,
            decreases exponent - i,
        {
            proof {
                lemma_pow_positive(10, i as nat);
                assert(pow(10, (i + 1) as nat) == pow(10, i as nat) * 10) by {
                    reveal(pow);
                }
                lemma_div_denominator(scaled as int, pow(10, i as nat), 10);
            }
            acc = acc / 10;
            i = i + 1;
        }
        proof {
            lemma_pow_positive(10, i as nat);
            lemma_pow_positive(10, exponent as nat);
            if i < exponent {
                lemma_pow_monotone(i as nat, exponent as nat);
                lemma_div_is_smaller(
                    scaled as int,
                    pow(10, i as nat),
                    pow(10, exponent as nat),
                );
            }
        }
        if acc > i64::MAX as u128 {
            Fixed { units: i64::MAX }
        } else {
            Fixed { units: acc as i64 }
        }
    }
}

proof fn lemma_pow_monotone(i: nat, j: nat)
    requires
        i <= j,
    ensures
        0 < pow(10, i) <= pow(10, j),
    decreases j,
{
    lemma_pow_positive(10, i);
    if i < j {
        lemma_pow_monotone(i, (j - 1) as nat);
        reveal(pow);
    }
}

proof fn lemma_div_is_smaller(x: int, a: int, b: int)
    requires
        0 <= x,
        0 < a <= b,
    ensures
        0 <= x / b <= x / a,
{
    lemma_div_pos_is_pos(x, b);
    vstd::arithmetic::div_mod::lemma_div_is_ordered_by_denominator(x, a, b);
}

impl Number for Fixed {
    open spec fn decimal_spec(mantissa: u64, exponent: i32) -> Self {
        if exponent >= 0 {
            Fixed::clamped(mantissa * UNITS_PER_ONE * pow(10, exponent as nat))
        } else {
            Fixed::clamped((mantissa * UNITS_PER_ONE) / pow(10, (-exponent) as nat))
        }
    }

    open spec fn whole_spec(n: u128) -> Self {
        Fixed::clamped(n * UNITS_PER_ONE)
    }

    open spec fn greatest_spec() -> Self {
        Fixed { units: i64::MAX }
    }

    open spec fn plus_spec(self, other: Self) -> Self {
        Fixed::clamped(self.units + other.units)
    }

    open spec fn minus_spec(self, other: Self) -> Self {
        Fixed::clamped(self.units - other.units)
    }

    open spec fn times_spec(self, other: Self) -> Self {
        Fixed::clamped((self.units * other.units) / UNITS_PER_ONE as int)
    }

    /// The quotient, rounded down; a quotient by zero has the sign of the dividend.
    open spec fn over_spec(self, other: Self) -> Self {
        if other.units > 0 {
            Fixed::clamped((self.units * UNITS_PER_ONE) / other.units as int)
        } else if other.units < 0 {
            Fixed::clamped((-self.units * UNITS_PER_ONE) / -other.units)
        } else if self.units > 0 {
            Fixed { units: i64::MAX }
        } else if self.units < 0 {
            Fixed { units: i64::MIN }
        } else {
            Fixed { units: 0 }
        }
    }

    open spec fn magnitude_spec(self) -> Self {
        if self.units < 0 {
            Fixed::clamped(-self.units)
        } else {
            self
        }
    }

    open spec fn less_spec(self, other: Self) -> bool {
        self.units < other.units
    }

    fn decimal(mantissa: u64, exponent: i32) -> Self {
        let scaled: u128 = mantissa as u128 * UNITS_PER_ONE as u128;
        assert(scaled <= u64::MAX * UNITS_PER_ONE) by (nonlinear_arith)
            requires
                scaled == mantissa * UNITS_PER_ONE,
                mantissa <= u64::MAX,
                UNITS_PER_ONE > 0,
        ;
        if exponent >= 0 {
            Fixed::shifted_left(scaled, exponent as u32)
        } else {
            let places: u32 = (-(exponent as i64)) as u32;
            Fixed::shifted_right(scaled, places)
        }
    }

    fn whole(n: u128) -> Self {
        if n > i64::MAX as u128 {
            Fixed { units: i64::MAX }
        } else {
            Fixed::clamp(n as i128 * UNITS_PER_ONE)
        }
    }

    fn greatest() -> Self {
        Fixed { units: i64::MAX }
    }

    fn plus(self, other: Self) -> Self {
        Fixed::clamp(self.units as i128 + other.units as i128)
    }

    fn minus(self, other: Self) -> Self {
        Fixed::clamp(self.units as i128 - other.units as i128)
    }

    fn times(self, other: Self) -> Self {
        proof {
            lemma_product_fits(self.units as int, other.units as int);
        }
        Fixed::clamp(
            Fixed::floor_quotient(self.units as i128 * other.units as i128, UNITS_PER_ONE),
        )
    }

    fn over(self, other: Self) -> Self {
        if other.units > 0 {
            Fixed::clamp(
                Fixed::floor_quotient(self.units as i128 * UNITS_PER_ONE, other.units as i128),
            )
        } else if other.units < 0 {
            Fixed::clamp(
                Fixed::floor_quotient(
                    -(self.units as i128) * UNITS_PER_ONE,
                    -(other.units as i128),
                ),
            )
        } else if self.units > 0 {
            Fixed { units: i64::MAX }
        } else if self.units < 0 {
            Fixed { units: i64::MIN }
        } else {
            Fixed { units: 0 }
        }
    }

    fn magnitude(self) -> Self {
        if self.units < 0 {
            Fixed::clamp(-(self.units as i128))
        } else {
            self
        }
    }

    fn less_than(self, other: Self) -> bool {
        self.units < other.units
    }
}

proof fn lemma_product_fits(a: int, b: int)
    requires
        i64::MIN <= a <= i64::MAX,
        i64::MIN <= b <= i64::MAX,
    ensures
        i128::MIN < a * b <= i128::MAX,
{
    assert(-0x8000_0000_0000_0000 * 0x8000_0000_0000_0000 <= a * b <= 0x8000_0000_0000_0000
        * 0x8000_0000_0000_0000) by (nonlinear_arith)
        requires
            -0x8000_0000_0000_0000 <= a <= 0x8000_0000_0000_0000,
            -0x8000_0000_0000_0000 <= b <= 0x8000_0000_0000_0000,
    ;
}

impl OrderedNumber for Fixed {
    open spec fn lowest_spec() -> Self {
        Fixed { units: i64::MIN }
    }

    fn lowest() -> Self {
        Fixed { units: i64::MIN }
    }

    proof fn order_is_total(a: Self, b: Self) {
    }

    proof fn order_is_transitive(a: Self, b: Self, c: Self) {
    }

    proof fn lowest_is_lowest(a: Self) {
    }

    proof fn sum_keeps_order(a: Self, b: Self) {
    }

    proof fn quotient_keeps_order(a: Self, b: Self, divisor: Self) {
        lemma_div_is_ordered(
            a.units * UNITS_PER_ONE,
            b.units * UNITS_PER_ONE,
            divisor.units as int,
        );
    }

    proof fn reciprocal_is_at_least_one(divisor: Self) {
        let one = UNITS_PER_ONE as int;
        let quotient = (one * one) / divisor.units as int;
        assert(quotient >= one) by {
            lemma_div_is_ordered(one * divisor.units, one * one, divisor.units as int);
            vstd::arithmetic::div_mod::lemma_div_by_multiple(one, divisor.units as int);
        }
    }

    proof fn product_keeps_order(a: Self, b: Self) {
        let one = UNITS_PER_ONE as int;
        let product = (a.units * b.units) / one;
        assert(a.units * b.units >= a.units * one) by (nonlinear_arith)
            requires
                a.units >= 0,
                b.units >= one,
        ;
        assert(product >= a.units) by {
            lemma_div_is_ordered(a.units * one, a.units * b.units, one);
            vstd::arithmetic::div_mod::lemma_div_by_multiple(a.units as int, one);
        }
    }

    proof fn one_is_not_negative() {
    }

    proof fn counts_move_up_exactly(a: Self, b: Self) {
        let one = Fixed::whole_spec(1);
        let m = choose|m: nat| a == #[trigger] tally(one, m);
        let n = choose|n: nat| b == #[trigger] tally(one, n);
        lemma_count_not_negative(m);
        lemma_count_not_negative(n);
    }
}

/// A count of ones is not negative.
proof fn lemma_count_not_negative(n: nat)
    ensures
        tally(Fixed::whole_spec(1), n).units >= 0,
    decreases n,
{
    if n > 0 {
        lemma_count_not_negative((n - 1) as nat);
    }
}

impl Fixed {
    /// The increment scales below the threshold if, scaled down, it is at least one below it.
    pub proof fn lemma_scales_below(increment: Fixed, threshold: Fixed)
        requires
            0 < threshold.units,
            0 <= increment.units,
            increment.over_spec(threshold).units + UNITS_PER_ONE <= threshold.units,
        ensures
            scales_below(increment, threshold),
    {
        let one = UNITS_PER_ONE as int;
        let t = threshold.units as int;
        assert(increment.over_spec(threshold).units >= 0) by {
            assert(increment.units * one >= 0) by (nonlinear_arith)
                requires
                    increment.units >= 0,
                    one > 0,
            ;
            lemma_div_pos_is_pos(increment.units * one, t);
        }
        assert forall|a: Fixed| a.less_spec(threshold) implies {
            &&& (#[trigger] a.over_spec(threshold)).less_spec(threshold)
            &&& a.over_spec(threshold).plus_spec(increment.over_spec(threshold)).less_spec(
                threshold,
            )
        } by {
            assert(a.units * one < one * t) by (nonlinear_arith)
                requires
                    a.units < t,
                    one > 0,
            ;
            vstd::arithmetic::div_mod::lemma_multiply_divide_lt(a.units * one, t, one);
        }
    }

    /// An increment that does not exceed a threshold of at least two scales below it.
    pub proof fn lemma_increment_scales_below(increment: Fixed, threshold: Fixed)
        requires
            0 <= increment.units <= threshold.units,
            2 * UNITS_PER_ONE <= threshold.units,
        ensures
            scales_below(increment, threshold),
    {
        let one = UNITS_PER_ONE as int;
        lemma_div_is_ordered(
            increment.units * one,
            threshold.units * one,
            threshold.units as int,
        );
        vstd::arithmetic::div_mod::lemma_div_by_multiple(one, threshold.units as int);
        assert(threshold.units * one == one * threshold.units) by (nonlinear_arith);
        Fixed::lemma_scales_below(increment, threshold);
    }
}

impl Fixed {
    /// As long as the results can be represented, sums and differences are exact, products and
    /// quotients are rounded down to a millionth, and the order is that of the millionths.
    pub proof fn lemma_arithmetic(a: Fixed, b: Fixed, n: u128)
        ensures
            n * UNITS_PER_ONE <= i64::MAX ==> Fixed::whole_spec(n).units == n * UNITS_PER_ONE,
            i64::MIN <= a.units + b.units <= i64::MAX ==> a.plus_spec(b).units == a.units
                + b.units,
            i64::MIN <= a.units - b.units <= i64::MAX ==> a.minus_spec(b).units == a.units
                - b.units,
            a.units >= 0 ==> a.magnitude_spec() == a,
            i64::MIN < a.units < 0 ==> a.magnitude_spec().units == -a.units,
            a.less_spec(b) <==> a.units < b.units,
            i64::MIN < a.times_spec(b).units < i64::MAX ==> a.times_spec(b).units * UNITS_PER_ONE
                <= a.units * b.units < (a.times_spec(b).units + 1) * UNITS_PER_ONE,
            b.units > 0 && i64::MIN < a.over_spec(b).units < i64::MAX ==> a.over_spec(b).units
                * b.units <= a.units * UNITS_PER_ONE < (a.over_spec(b).units + 1) * b.units,
    {
        let one = UNITS_PER_ONE as int;
        lemma_fundamental_div_mod(a.units * b.units, one);
        if b.units > 0 {
            let q = (a.units * one) / (b.units as int);
            let rest = (a.units * one) % (b.units as int);
            lemma_fundamental_div_mod(a.units * one, b.units as int);
            assert(q * b.units <= a.units * one < (q + 1) * b.units) by (nonlinear_arith)
                requires
                    a.units * one == b.units * q + rest,
                    0 <= rest < b.units,
            ;
        }
    }
}

} // verus!
