//! What the usefulness of runs does to the utility of a propagator.

use crate::fixed::{Fixed, UNITS_PER_ONE};
use crate::number::Number;
use crate::propagation::PropagatorId;
use crate::propagator_queue::{decayed, PropagatorQueue};
use crate::propagator_utility::{PropagationOutcome, PropagatorUtilityFormula};
use crate::queue_history::{is_history, steps, QueueCall};
use vstd::arithmetic::div_mod::{
    lemma_fundamental_div_mod, lemma_fundamental_div_mod_converse,
};
use vstd::arithmetic::power::pow;
use vstd::prelude::*;

verus! {

/// Counting conflicts or removed values looks at nothing else; the rates look at the time as well,
/// but the rate of conflicts not at removed values and the rate of removed values not at
/// conflicts. How much a conflict counts for matters only to the default formula, and only if
/// there was one.
pub proof fn lemma_formulas_look_at<N: Number>(
    formula: PropagatorUtilityFormula,
    one: PropagationOutcome,
    other: PropagationOutcome,
    weight: N,
    other_weight: N,
)
    requires
        formula is Default || formula is PruningRate || formula is Prunings
            ==> one.total_removed_values == other.total_removed_values,
        formula is Default || formula is ConflictRate || formula is Conflicts
            ==> one.found_conflict == other.found_conflict,
        formula is Default || formula is ConflictRate || formula is PruningRate
            ==> one.time_micros == other.time_micros,
        formula is Default && one.found_conflict ==> weight == other_weight,
    ensures
        formula.run_utility(one, weight) == formula.run_utility(other, other_weight),
{
}

/// A run counts one conflict or none, or its removed values; a rate is such a count over the
/// microseconds that the run took and one more, by default that of the removed values together
/// with the weight of the conflict.
pub proof fn lemma_formulas_count<N: Number>(outcome: PropagationOutcome, weight: N)
    ensures
        PropagatorUtilityFormula::Conflicts.run_utility(outcome, weight)
            == if outcome.found_conflict {
            N::whole_spec(1)
        } else {
            N::whole_spec(0)
        },
        PropagatorUtilityFormula::Prunings.run_utility(outcome, weight) == N::whole_spec(
            outcome.total_removed_values as u128,
        ),
        PropagatorUtilityFormula::ConflictRate.run_utility(outcome, weight)
            == PropagatorUtilityFormula::Conflicts.run_utility(outcome, weight).over_spec(
            N::whole_spec(outcome.time_micros).plus_spec(N::whole_spec(1)),
        ),
        PropagatorUtilityFormula::PruningRate.run_utility(outcome, weight)
            == PropagatorUtilityFormula::Prunings.run_utility(outcome, weight).over_spec(
            N::whole_spec(outcome.time_micros).plus_spec(N::whole_spec(1)),
        ),
        PropagatorUtilityFormula::Default.run_utility(outcome, weight)
            == PropagatorUtilityFormula::Prunings.run_utility(outcome, weight).plus_spec(
            if outcome.found_conflict {
                weight
            } else {
                N::whole_spec(0)
            },
        ).over_spec(N::whole_spec(outcome.time_micros).plus_spec(N::whole_spec(1))),
{
}

/// With fixed-point numbers, the usefulness of a run is what it counts, over the microseconds it
/// took and one more where it is a rate, rounded down: a conflict counts for one, or by default
/// for the weight, and a removed value for one.
pub proof fn lemma_fixed_usefulness(
    formula: PropagatorUtilityFormula,
    outcome: PropagationOutcome,
    weight: Fixed,
)
    requires
        (outcome.time_micros + 1) * UNITS_PER_ONE <= i64::MAX,
        i64::MIN <= outcome.total_removed_values * UNITS_PER_ONE + weight.units <= i64::MAX,
    ensures
        ({
            let units = formula.run_utility(outcome, weight).units as int;
            let removed = outcome.total_removed_values * UNITS_PER_ONE;
            let conflict: int = if outcome.found_conflict {
                UNITS_PER_ONE as int
            } else {
                0
            };
            let weighted: int = if outcome.found_conflict {
                weight.units as int
            } else {
                0
            };
            let duration = outcome.time_micros + 1;
            match formula {
                PropagatorUtilityFormula::Default => units * duration <= removed + weighted < (units
                    + 1) * duration,
                PropagatorUtilityFormula::ConflictRate => units * duration <= conflict < (units + 1)
                    * duration,
                PropagatorUtilityFormula::PruningRate => units * duration <= removed < (units + 1)
                    * duration,
                PropagatorUtilityFormula::Conflicts => units == conflict,
                PropagatorUtilityFormula::Prunings => units == removed,
            }
        }),
{
    let removed = outcome.total_removed_values * UNITS_PER_ONE;
    let duration = outcome.time_micros + 1;
    let weighted: int = if outcome.found_conflict {
        removed + weight.units
    } else {
        removed
    };
    assert(Fixed::whole_spec(outcome.time_micros).plus_spec(Fixed::whole_spec(1)).units == duration
        * UNITS_PER_ONE) by {
        assert(outcome.time_micros * UNITS_PER_ONE + UNITS_PER_ONE == duration * UNITS_PER_ONE)
            by (nonlinear_arith)
            requires
                duration == outcome.time_micros + 1,
        ;
        assert(outcome.time_micros * UNITS_PER_ONE >= 0) by (nonlinear_arith)
            requires
                outcome.time_micros >= 0,
                UNITS_PER_ONE == 1_000_000,
        ;
    }
    lemma_rate(weighted, duration);
    lemma_rate(removed, duration);
    lemma_rate(UNITS_PER_ONE as int, duration);
    lemma_rate(0, duration);
}

/// A number of millionths over a whole number, rounded down.
proof fn lemma_rate(counted: int, duration: int)
    requires
        i64::MIN <= counted <= i64::MAX,
        1 <= duration,
        duration * UNITS_PER_ONE <= i64::MAX,
    ensures
        ({
            let a = Fixed { units: counted as i64 };
            let b = Fixed { units: (duration * UNITS_PER_ONE) as i64 };
            let units = a.over_spec(b).units as int;
            units * duration <= counted < (units + 1) * duration
        }),
{
    let one = UNITS_PER_ONE as int;
    let q = counted / duration;
    assert(duration * one > 0) by (nonlinear_arith)
        requires
            duration >= 1,
            one == 1_000_000,
    ;
    lemma_fundamental_div_mod(counted, duration);
    assert(q * duration <= counted < (q + 1) * duration && i64::MIN <= q <= i64::MAX)
        by (nonlinear_arith)
        requires
            counted == duration * q + counted % duration,
            0 <= counted % duration < duration,
            duration >= 1,
            i64::MIN <= counted <= i64::MAX,
    ;
    let rest = counted % duration;
    assert(counted * one == q * (duration * one) + rest * one && 0 <= rest * one < duration * one)
        by (nonlinear_arith)
        requires
            counted == duration * q + rest,
            0 <= rest < duration,
            one == 1_000_000,
    ;
    lemma_fundamental_div_mod_converse(counted * one, duration * one, q, rest * one);
}

/// The utility of the propagator in the queue, which is zero as long as it is not known.
pub open spec fn utility_in<N: Number>(queue: PropagatorQueue<N>, id: PropagatorId) -> N {
    if id.0 < queue.propagator_utility@.len() {
        queue.propagator_utility@[id.0 as int]
    } else {
        N::whole_spec(0)
    }
}

/// A run changes the utility of no other propagator, and what it counts for is measured by the
/// formula and the weight that are set.
pub proof fn lemma_recording_changes_one<N: Number>(
    before: PropagatorQueue<N>,
    id: PropagatorId,
    outcome: PropagationOutcome,
    after: PropagatorQueue<N>,
    other: PropagatorId,
)
    requires
        PropagatorQueue::records(before, id, outcome, after),
        other != id,
    ensures
        utility_in(after, other) == utility_in(before, other),
        !before.has_previous_static_priority ==> id.0 < after.propagator_utility@.len(),
{
}

/// With fixed-point numbers, the utility after a run is the mean of the utility before it and of
/// the usefulness of the run, weighted by the decay and by what the decay lacks to one, up to two
/// millionths of rounding.
pub proof fn lemma_fixed_utility_is_mean(
    before: PropagatorQueue<Fixed>,
    id: PropagatorId,
    outcome: PropagationOutcome,
    after: PropagatorQueue<Fixed>,
)
    requires
        !before.has_previous_static_priority,
        PropagatorQueue::records(before, id, outcome, after),
        0 <= before.propagator_utility_decay.units <= UNITS_PER_ONE,
        i64::MIN + 2 <= utility_in(before, id).units,
        i64::MIN + 2 <= before.propagator_utility_formula.run_utility(
            outcome,
            before.propagator_utility_conflict_weight,
        ).units,
    ensures
        ({
            let one = UNITS_PER_ONE as int;
            let decay = before.propagator_utility_decay.units as int;
            let old_utility = utility_in(before, id).units as int;
            let usefulness = before.propagator_utility_formula.run_utility(
                outcome,
                before.propagator_utility_conflict_weight,
            ).units as int;
            let utility = utility_in(after, id).units as int;
            let mean = decay * old_utility + (one - decay) * usefulness;
            // It is the weighted mean, ...
            &&& one * utility <= mean < one * (utility + 2)
            // ... lies between the two, ...
            &&& old_utility <= usefulness ==> old_utility - 1 <= utility <= usefulness
            &&& usefulness <= old_utility ==> usefulness - 1 <= utility <= old_utility
            // ... is the one before if nothing decays, and that of the run if everything does, ...
            &&& decay == one ==> utility == old_utility
            &&& decay == 0 ==> utility == usefulness
            // ... and leaves the share of the distance to the usefulness that the decay says.
            &&& decay * (usefulness - old_utility) <= one * (usefulness - utility) < decay * (
            usefulness - old_utility) + 2 * one
        }),
{
    let one = UNITS_PER_ONE as int;
    let decay = before.propagator_utility_decay.units as int;
    let u = utility_in(before, id).units as int;
    let r = before.propagator_utility_formula.run_utility(
        outcome,
        before.propagator_utility_conflict_weight,
    ).units as int;
    let first = (decay * u) / one;
    let second = ((one - decay) * r) / one;
    lemma_share(decay, u);
    lemma_share(one - decay, r);
    let sum = first + second;
    assert(one * sum <= decay * u + (one - decay) * r < one * (sum + 2));
    assert(decay * (r - u) == decay * r - decay * u) by (nonlinear_arith);
    assert((one - decay) * r == one * r - decay * r) by (nonlinear_arith);
    assert((one - decay) * (u - r) == (one - decay) * u - (one - decay) * r) by (nonlinear_arith);
    assert((one - decay) * u == one * u - decay * u) by (nonlinear_arith);
    if u <= r {
        assert(decay * (r - u) >= 0) by (nonlinear_arith)
            requires
                decay >= 0,
                r >= u,
        ;
        assert((one - decay) * (u - r) <= 0) by (nonlinear_arith)
            requires
                one >= decay,
                r >= u,
        ;
    } else {
        assert(decay * (r - u) <= 0) by (nonlinear_arith)
            requires
                decay >= 0,
                r <= u,
        ;
        assert((one - decay) * (u - r) >= 0) by (nonlinear_arith)
            requires
                one >= decay,
                r <= u,
        ;
    }
    assert(i64::MIN <= sum <= i64::MAX);
    let after_units = utility_in(after, id).units as int;
    assert(Fixed::whole_spec(1).minus_spec(before.propagator_utility_decay).units == one - decay);
    assert(after_units == sum);
    if decay == one {
        assert(first == u && second == 0) by (nonlinear_arith)
            requires
                one == 1_000_000,
                decay == one,
                first == (decay * u) / one,
                second == ((one - decay) * r) / one,
        ;
    }
    if decay == 0 {
        assert(first == 0 && second == r) by (nonlinear_arith)
            requires
                one == 1_000_000,
                decay == 0,
                first == (decay * u) / one,
                second == ((one - decay) * r) / one,
        ;
    }
}

/// A share of a representable number can be represented.
proof fn lemma_share(share: int, a: int)
    requires
        0 <= share <= UNITS_PER_ONE,
        i64::MIN <= a <= i64::MAX,
    ensures
        i64::MIN <= (share * a) / (UNITS_PER_ONE as int) <= i64::MAX,
        UNITS_PER_ONE * ((share * a) / (UNITS_PER_ONE as int)) <= share * a,
        share * a < UNITS_PER_ONE * ((share * a) / (UNITS_PER_ONE as int) + 1),
{
    let one = UNITS_PER_ONE as int;
    let q = (share * a) / one;
    lemma_fundamental_div_mod(share * a, one);
    assert(-0x8000_0000_0000_0000 * one <= share * a <= 0x7fff_ffff_ffff_ffff * one)
        by (nonlinear_arith)
        requires
            0 <= share <= one,
            -0x8000_0000_0000_0000 <= a <= 0x7fff_ffff_ffff_ffff,
    ;
}

/// Whether taking the mean of `utility` and `usefulness`, weighted by the decay, involves no
/// rounding, when the numbers are read as multiples of one over `scale`.
pub open spec fn mixes_exactly<N: Number>(
    reading: spec_fn(N) -> int,
    scale: int,
    decay: N,
    utility: N,
    usefulness: N,
) -> bool {
    let one = N::whole_spec(1);
    let rest = one.minus_spec(decay);
    let kept = decay.times_spec(utility);
    let added = rest.times_spec(usefulness);
    &&& reading(one) == scale
    &&& reading(rest) == reading(one) - reading(decay)
    &&& reading(kept) * scale == reading(decay) * reading(utility)
    &&& reading(added) * scale == reading(rest) * reading(usefulness)
    &&& reading(kept.plus_spec(added)) == reading(kept) + reading(added)
}

/// The usefulness of the runs of the propagator that the first `n` calls recorded.
pub open spec fn runs_of<N: Number>(
    states: Seq<PropagatorQueue<N>>,
    calls: Seq<QueueCall>,
    n: int,
    id: PropagatorId,
) -> Seq<N>
    decreases n,
{
    if n <= 0 {
        Seq::empty()
    } else {
        let earlier = runs_of(states, calls, n - 1, id);
        match calls[n - 1] {
            QueueCall::Record(recorded, outcome) if recorded == id
                && !states[n - 1].has_previous_static_priority => earlier.push(
                states[n - 1].propagator_utility_formula.run_utility(
                    outcome,
                    states[n - 1].propagator_utility_conflict_weight,
                ),
            ),
            _ => earlier,
        }
    }
}

/// The sum over the first `n` of the runs of what the decay lacks to one, times the decay to the
/// power of how many of the runs are later, times the usefulness of the run; all of it in
/// multiples of one over the scale to the power of the number of runs.
pub open spec fn discounted<N: Number>(
    reading: spec_fn(N) -> int,
    scale: int,
    decay: int,
    runs: Seq<N>,
    n: int,
) -> int
    decreases n,
{
    if n <= 0 {
        0
    } else {
        discounted(reading, scale, decay, runs, n - 1) + (scale - decay) * pow(
            decay,
            (runs.len() - n) as nat,
        ) * pow(scale, (n - 1) as nat) * reading(runs[n - 1])
    }
}

/// After any calls with the same decay whose means involve no rounding, the utility of a
/// propagator is the sum of the usefulness of its runs, each weighted by what the decay lacks to
/// one times the decay to the power of how many runs of the propagator are later.
pub proof fn lemma_utility_discounts_runs<N: Number>(
    reading: spec_fn(N) -> int,
    scale: int,
    decay: N,
    states: Seq<PropagatorQueue<N>>,
    calls: Seq<QueueCall>,
    n: int,
    id: PropagatorId,
)
    requires
        is_history(states, calls),
        0 <= n <= calls.len(),
        reading(N::whole_spec(0)) == 0,
        forall|i: int|
            0 <= i < n ==> (#[trigger] calls[i] matches QueueCall::Record(recorded, outcome)
                ==> recorded == id && !states[i].has_previous_static_priority ==> {
                &&& states[i].propagator_utility_decay == decay
                &&& mixes_exactly(
                    reading,
                    scale,
                    decay,
                    utility_in(states[i], id),
                    states[i].propagator_utility_formula.run_utility(
                        outcome,
                        states[i].propagator_utility_conflict_weight,
                    ),
                )
            }),
    ensures
        ({
            let runs = runs_of(states, calls, n, id);
            pow(scale, runs.len()) * reading(utility_in(states[n], id)) == discounted(
                reading,
                scale,
                reading(decay),
                runs,
                runs.len() as int,
            )
        }),
    decreases n,
{
    reveal(pow);
    if n > 0 {
        lemma_utility_discounts_runs(reading, scale, decay, states, calls, n - 1, id);
        let before = states[n - 1];
        let after = states[n];
        assert(steps(before, calls[n - 1], after));
        let earlier = runs_of(states, calls, n - 1, id);
        if let QueueCall::Record(recorded, outcome) = calls[n - 1] {
            if recorded != id {
                lemma_recording_changes_one(before, recorded, outcome, after, id);
            } else if !before.has_previous_static_priority {
                let usefulness = before.propagator_utility_formula.run_utility(
                    outcome,
                    before.propagator_utility_conflict_weight,
                );
                let runs = earlier.push(usefulness);
                let utility = utility_in(before, id);
                let k = earlier.len();
                assert(mixes_exactly(reading, scale, decay, utility, usefulness));
                let d = reading(decay);
                lemma_discounted_once_more(reading, scale, d, earlier, usefulness, k as int);
                assert(utility_in(after, id) == decayed(utility, usefulness, decay));
                let new_reading = reading(utility_in(after, id));
                let kept = reading(decay.times_spec(utility));
                let added = reading(
                    N::whole_spec(1).minus_spec(decay).times_spec(usefulness),
                );
                assert(new_reading == kept + added);
                lemma_next_power(
                    scale,
                    d,
                    k,
                    reading(utility),
                    reading(usefulness),
                    kept,
                    added,
                );
                assert(runs[k as int] == usefulness);
                assert(pow(d, 0) == 1);
            }
        }
    }
}

/// One more run discounts the runs before it once more.
proof fn lemma_discounted_once_more<N: Number>(
    reading: spec_fn(N) -> int,
    scale: int,
    decay: int,
    runs: Seq<N>,
    usefulness: N,
    n: int,
)
    requires
        0 <= n <= runs.len(),
    ensures
        discounted(reading, scale, decay, runs.push(usefulness), n) == decay * discounted(
            reading,
            scale,
            decay,
            runs,
            n,
        ),
    decreases n,
{
    reveal(pow);
    if n > 0 {
        lemma_discounted_once_more(reading, scale, decay, runs, usefulness, n - 1);
        let exponent = (runs.len() - n) as nat;
        let rest = discounted(reading, scale, decay, runs, n - 1);
        let share = pow(decay, exponent);
        let power = pow(scale, (n - 1) as nat);
        let value = reading(runs[n - 1]);
        assert(pow(decay, exponent + 1) == decay * share);
        assert(runs.push(usefulness)[n - 1] == runs[n - 1]);
        assert(decay * (rest + (scale - decay) * share * power * value) == decay * rest + (scale
            - decay) * (decay * share) * power * value) by (nonlinear_arith);
    } else {
        assert(decay * 0 == 0) by (nonlinear_arith);
    }
}

/// The mean, in multiples of one over the next power of the scale.
proof fn lemma_next_power(
    scale: int,
    decay: int,
    k: nat,
    utility: int,
    usefulness: int,
    kept: int,
    added: int,
)
    requires
        kept * scale == decay * utility,
        added * scale == (scale - decay) * usefulness,
    ensures
        pow(scale, k + 1) * (kept + added) == decay * (pow(scale, k) * utility) + (scale - decay)
            * 1 * pow(scale, k) * usefulness,
{
    reveal(pow);
    let power = pow(scale, k);
    assert(pow(scale, k + 1) == scale * power);
    assert((scale * power) * (kept + added) == power * (kept * scale) + power * (added * scale))
        by (nonlinear_arith);
    assert(power * (decay * utility) == decay * (power * utility)) by (nonlinear_arith);
    assert(power * ((scale - decay) * usefulness) == (scale - decay) * 1 * power * usefulness)
        by (nonlinear_arith);
}

} // verus!
