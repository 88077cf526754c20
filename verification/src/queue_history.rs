//! What holds of a queue of propagators after any sequence of calls.

use crate::containers::keyed_vec::accomodated;
use crate::fixed::Fixed;
use crate::number::Number;
use crate::propagation::{Priority, PropagatorId};
use crate::propagator_queue::{bin_average, belongs, members, PropagatorQueue};
use crate::propagator_utility::PropagationOutcome;
use vstd::prelude::*;

verus! {

/// One call of a method of a queue that can change it.
pub enum QueueCall {
    /// The propagator is enqueued with the given priority.
    Enqueue(PropagatorId, Priority),
    /// The next propagator is taken out.
    Pop,
    /// All propagators are taken out.
    Clear,
    /// The outcome of a run of the propagator is recorded.
    Record(PropagatorId, PropagationOutcome),
    /// The dynamic priority of the propagator, which is given the priority, is asked for.
    Calculate(PropagatorId, Priority),
    /// The parameters are set.
    Configure,
}

/// Whether `before` and `after` differ in the parameters alone.
pub open spec fn configures<N: Number>(
    before: PropagatorQueue<N>,
    after: PropagatorQueue<N>,
) -> bool {
    after == PropagatorQueue {
        dynamic_priority_adaptation: after.dynamic_priority_adaptation,
        propagator_utility_formula: after.propagator_utility_formula,
        propagator_utility_decay: after.propagator_utility_decay,
        propagator_utility_conflict_weight: after.propagator_utility_conflict_weight,
        previous_static_priority: after.previous_static_priority,
        has_previous_static_priority: after.has_previous_static_priority,
        ..before
    }
}

/// Whether the call can turn `before` into `after`.
pub open spec fn steps<N: Number>(
    before: PropagatorQueue<N>,
    call: QueueCall,
    after: PropagatorQueue<N>,
) -> bool {
    &&& after.wf()
    &&& match call {
        QueueCall::Enqueue(id, priority) => PropagatorQueue::enqueues(before, id, priority, after),
        QueueCall::Pop => exists|r: Option<PropagatorId>| #[trigger]
            PropagatorQueue::pops(before, r, after),
        QueueCall::Clear => PropagatorQueue::clears(before, after),
        QueueCall::Record(id, outcome) => PropagatorQueue::records(before, id, outcome, after),
        QueueCall::Calculate(id, priority) => exists|r: Priority| #[trigger]
            PropagatorQueue::calculates(before, id, priority, r, after),
        QueueCall::Configure => configures(before, after),
    }
}

/// Whether the calls lead from a new queue through the given states, one after each call.
pub open spec fn is_history<N: Number>(
    states: Seq<PropagatorQueue<N>>,
    calls: Seq<QueueCall>,
) -> bool {
    &&& states.len() == calls.len() + 1
    &&& states[0].is_new()
    &&& forall|i: int|
        0 <= i < calls.len() ==> steps(states[i], #[trigger] calls[i], states[i + 1])
}

/// The priority given by the latest of the first `n` calls that enqueued the propagator while
/// changes of priorities were counted.
pub open spec fn latest_priority<N: Number>(
    states: Seq<PropagatorQueue<N>>,
    calls: Seq<QueueCall>,
    n: int,
    id: PropagatorId,
) -> Option<Priority>
    decreases n,
{
    if n <= 0 {
        None
    } else if states[n - 1].dynamic_priority_adaptation {
        match calls[n - 1] {
            QueueCall::Enqueue(enqueued, priority) if enqueued == id => Some(priority),
            _ => latest_priority(states, calls, n - 1, id),
        }
    } else {
        latest_priority(states, calls, n - 1, id)
    }
}

/// The priority given by the first of the first `n` calls that asked for the dynamic priority of
/// the propagator while no priorities from a previous run were used.
pub open spec fn first_priority<N: Number>(
    states: Seq<PropagatorQueue<N>>,
    calls: Seq<QueueCall>,
    n: int,
    id: PropagatorId,
) -> Option<Priority>
    decreases n,
{
    if n <= 0 {
        None
    } else {
        let earlier = first_priority(states, calls, n - 1, id);
        match calls[n - 1] {
            QueueCall::Calculate(asked, priority) if asked == id && earlier is None
                && !states[n - 1].has_previous_static_priority => Some(priority),
            _ => earlier,
        }
    }
}

/// The element at `index`, or `None` beyond the end.
pub open spec fn known_at(priorities: Seq<Option<Priority>>, index: int) -> Option<Priority> {
    if 0 <= index < priorities.len() {
        priorities[index]
    } else {
        None
    }
}

/// After any calls, the queue remembers for each propagator the priority that it was last enqueued
/// with while changes were counted.
pub proof fn lemma_remembers_latest_priority<N: Number>(
    states: Seq<PropagatorQueue<N>>,
    calls: Seq<QueueCall>,
    n: int,
    id: PropagatorId,
)
    requires
        is_history(states, calls),
        0 <= n <= calls.len(),
    ensures
        known_at(states[n].last_priorities@, id.0 as int) == latest_priority(
            states,
            calls,
            n,
            id,
        ),
    decreases n,
{
    if n > 0 {
        lemma_remembers_latest_priority(states, calls, n - 1, id);
        assert(steps(states[n - 1], calls[n - 1], states[n]));
        if let QueueCall::Enqueue(enqueued, _) = calls[n - 1] {
            assert(enqueued == id <==> enqueued.0 == id.0);
        }
    }
}

/// After any calls, enqueuing a propagator counts as a change of priority exactly if changes are
/// counted and the propagator was enqueued before, while they were counted, the last time with
/// another priority. No other call counts as one.
pub proof fn lemma_counts_changes_of_priority<N: Number>(
    states: Seq<PropagatorQueue<N>>,
    calls: Seq<QueueCall>,
    n: int,
)
    requires
        is_history(states, calls),
        0 <= n < calls.len(),
    ensures
        states[n + 1].num_priority_changes == states[n].num_priority_changes + match calls[n] {
            QueueCall::Enqueue(id, priority) => {
                let last = latest_priority(states, calls, n, id);
                if states[n].dynamic_priority_adaptation && last is Some && last != Some(priority) {
                    1int
                } else {
                    0int
                }
            },
            _ => 0int,
        },
{
    assert(steps(states[n], calls[n], states[n + 1]));
    if let QueueCall::Enqueue(id, _) = calls[n] {
        lemma_remembers_latest_priority(states, calls, n, id);
    }
}

/// After any calls, each propagator belongs to the bin of the priority that it was given when its
/// dynamic priority was first asked for, and to none before that; every bin counts the
/// propagators that belong to it.
pub proof fn lemma_bins_hold_first_priorities<N: Number>(
    states: Seq<PropagatorQueue<N>>,
    calls: Seq<QueueCall>,
    n: int,
    id: PropagatorId,
)
    requires
        is_history(states, calls),
        0 <= n <= calls.len(),
    ensures
        known_at(states[n].base_priorities@, id.0 as int) == first_priority(states, calls, n, id),
        forall|bin: int|
            0 <= bin < 4 ==> #[trigger] states[n].bin_counts@[bin] == members(
                states[n].base_priorities@,
                bin,
            ),
    decreases n,
{
    if n > 0 {
        lemma_bins_hold_first_priorities(states, calls, n - 1, id);
        assert(steps(states[n - 1], calls[n - 1], states[n]));
        if let QueueCall::Calculate(asked, _) = calls[n - 1] {
            assert(asked == id <==> asked.0 == id.0);
        }
    }
}

/// The sum of the utilities, each read as an integer, of the propagators that belong to the bin
/// `bin`.
pub open spec fn bin_total<N: Number>(
    reading: spec_fn(N) -> int,
    utilities: Seq<N>,
    bases: Seq<Option<Priority>>,
    bin: int,
) -> int
    decreases bases.len(),
{
    if bases.len() == 0 {
        0
    } else {
        bin_total(reading, utilities, bases.drop_last(), bin) + if belongs(bases.last(), bin) {
            reading(utilities[bases.len() - 1])
        } else {
            0
        }
    }
}

/// The sum of the utilities, each read as an integer, of the propagators that belong to the bin
/// `bin` of the queue.
pub open spec fn utility_of_bin<N: Number>(
    reading: spec_fn(N) -> int,
    queue: PropagatorQueue<N>,
    bin: int,
) -> int {
    bin_total(reading, queue.propagator_utility@, queue.base_priorities@, bin)
}

/// By how much the new sum of the bin `bin`, read as an integer, differs from what adding and
/// subtracting the readings of the utilities gives, where the call changes that sum.
pub open spec fn rounding<N: Number>(
    reading: spec_fn(N) -> int,
    before: PropagatorQueue<N>,
    call: QueueCall,
    after: PropagatorQueue<N>,
    bin: int,
) -> int {
    let sum = before.bin_sums@[bin];
    match call {
        QueueCall::Record(id, _) if !before.has_previous_static_priority && belongs(
            known_at(before.base_priorities@, id.0 as int),
            bin,
        ) => {
            let old_utility = before.propagator_utility@[id.0 as int];
            let utility = after.propagator_utility@[id.0 as int];
            reading(sum.minus_spec(old_utility).plus_spec(utility)) - (reading(sum) - reading(
                old_utility,
            ) + reading(utility))
        },
        QueueCall::Calculate(id, priority) if !before.has_previous_static_priority && known_at(
            before.base_priorities@,
            id.0 as int,
        ) is None && priority.level() == bin => {
            let utility = after.propagator_utility@[id.0 as int];
            reading(sum.plus_spec(utility)) - (reading(sum) + reading(utility))
        },
        _ => 0,
    }
}

/// What the first `n` calls have rounded the sum of the bin `bin` by.
pub open spec fn total_rounding<N: Number>(
    reading: spec_fn(N) -> int,
    states: Seq<PropagatorQueue<N>>,
    calls: Seq<QueueCall>,
    n: int,
    bin: int,
) -> int
    decreases n,
{
    if n <= 0 {
        0
    } else {
        total_rounding(reading, states, calls, n - 1, bin) + rounding(
            reading,
            states[n - 1],
            calls[n - 1],
            states[n],
            bin,
        )
    }
}

/// After any calls, for any reading of the numbers as integers in which zero is read as zero, the
/// sum of every bin is the sum of the utilities of the propagators that belong to it, up to what
/// the single additions and subtractions have rounded. The bin counts those propagators, and its
/// average is its sum over their number; a bin without propagators has its default average.
pub proof fn lemma_bins_sum_up_utilities<N: Number>(
    reading: spec_fn(N) -> int,
    states: Seq<PropagatorQueue<N>>,
    calls: Seq<QueueCall>,
    n: int,
    bin: int,
)
    requires
        is_history(states, calls),
        0 <= n <= calls.len(),
        0 <= bin < 4,
        reading(N::whole_spec(0)) == 0,
    ensures
        reading(states[n].bin_sums@[bin]) == utility_of_bin(reading, states[n], bin)
            + total_rounding(reading, states, calls, n, bin),
        states[n].bin_counts@[bin] == members(states[n].base_priorities@, bin),
        states[n].bin_averages@[bin] == bin_average(
            states[n].bin_sums@[bin],
            states[n].bin_counts@[bin],
            bin,
        ),
        states[n].propagator_utility@.len() == states[n].base_priorities@.len(),
    decreases n,
{
    if n == 0 {
        assert(states[0].bin_sums@[bin] == N::whole_spec(0));
        assert(states[0].bin_counts@[bin] == 0);
    } else {
        let before = states[n - 1];
        let after = states[n];
        lemma_bins_sum_up_utilities(reading, states, calls, n - 1, bin);
        assert(steps(before, calls[n - 1], after));
        match calls[n - 1] {
            QueueCall::Record(id, _) => {
                if !before.has_previous_static_priority {
                    let k = id.0 as int;
                    let utilities = accomodated(
                        before.propagator_utility@,
                        k as nat,
                        N::whole_spec(0),
                    );
                    lemma_total_accomodated(
                        reading,
                        before.propagator_utility@,
                        utilities,
                        before.base_priorities@,
                        k as nat,
                        bin,
                    );
                    lemma_total_utility(
                        reading,
                        utilities,
                        after.base_priorities@,
                        k,
                        after.propagator_utility@[k],
                        bin,
                    );
                }
            },
            QueueCall::Calculate(id, priority) => {
                if !before.has_previous_static_priority {
                    let k = id.0 as int;
                    let utilities = accomodated(
                        before.propagator_utility@,
                        k as nat,
                        N::whole_spec(0),
                    );
                    let bases = accomodated(before.base_priorities@, k as nat, None);
                    lemma_total_accomodated(
                        reading,
                        before.propagator_utility@,
                        utilities,
                        before.base_priorities@,
                        k as nat,
                        bin,
                    );
                    if bases[k] is None {
                        lemma_total_join(reading, utilities, bases, k, priority, bin);
                    }
                }
            },
            _ => {},
        }
        assert(after.bin_averages@[bin] == bin_average(
            after.bin_sums@[bin],
            after.bin_counts@[bin],
            bin,
        ));
    }
}

/// After any calls whose additions and subtractions are exact in the given reading, the sum of
/// every bin is the sum of the utilities of the propagators that belong to it.
pub proof fn lemma_bins_sum_up_exactly<N: Number>(
    reading: spec_fn(N) -> int,
    states: Seq<PropagatorQueue<N>>,
    calls: Seq<QueueCall>,
    n: int,
    bin: int,
)
    requires
        is_history(states, calls),
        0 <= n <= calls.len(),
        0 <= bin < 4,
        reading(N::whole_spec(0)) == 0,
        forall|i: int|
            0 <= i < n ==> rounding(reading, states[i], #[trigger] calls[i], states[i + 1], bin)
                == 0,
    ensures
        reading(states[n].bin_sums@[bin]) == utility_of_bin(reading, states[n], bin),
        total_rounding(reading, states, calls, n, bin) == 0,
    decreases n,
{
    if n > 0 {
        lemma_bins_sum_up_exactly(reading, states, calls, n - 1, bin);
        assert(rounding(reading, states[n - 1], calls[n - 1], states[n], bin) == 0);
    }
    lemma_bins_sum_up_utilities(reading, states, calls, n, bin);
}

/// Fixed-point numbers are read in millionths.
pub open spec fn units() -> spec_fn(Fixed) -> int {
    |number: Fixed| number.units as int
}

/// Whether a number of millionths can be represented.
pub open spec fn fits(units: int) -> bool {
    i64::MIN <= units <= i64::MAX
}

/// Whether the call changes the sum of a bin without leaving the numbers that can be represented.
pub open spec fn keeps_sums_exact(
    before: PropagatorQueue<Fixed>,
    call: QueueCall,
    after: PropagatorQueue<Fixed>,
) -> bool {
    let static_priorities = before.has_previous_static_priority;
    match call {
        QueueCall::Record(id, _) => match known_at(before.base_priorities@, id.0 as int) {
            Some(base) => static_priorities || {
                let bin = base.level() as int;
                &&& fits(
                    utility_of_bin(units(), before, bin) - before.propagator_utility@[id.0 as
                        int].units,
                )
                &&& fits(utility_of_bin(units(), after, bin))
            },
            None => true,
        },
        QueueCall::Calculate(id, priority) => {
            ||| static_priorities
            ||| known_at(before.base_priorities@, id.0 as int) is Some
            ||| fits(utility_of_bin(units(), after, priority.level() as int))
        },
        _ => true,
    }
}

/// After any calls on a queue with fixed-point utilities in which no sum leaves the numbers that
/// can be represented, the sum of every bin is the sum of the utilities of the propagators that
/// belong to it, and its average is that sum over their number.
pub proof fn lemma_fixed_bins_sum_up_utilities(
    states: Seq<PropagatorQueue<Fixed>>,
    calls: Seq<QueueCall>,
    n: int,
    bin: int,
)
    requires
        is_history(states, calls),
        0 <= n <= calls.len(),
        0 <= bin < 4,
        forall|i: int|
            0 <= i < n ==> keeps_sums_exact(states[i], #[trigger] calls[i], states[i + 1]),
    ensures
        states[n].bin_sums@[bin].units == utility_of_bin(units(), states[n], bin),
        states[n].bin_averages@[bin] == bin_average(
            Fixed { units: utility_of_bin(units(), states[n], bin) as i64 },
            states[n].bin_counts@[bin],
            bin,
        ),
        total_rounding(units(), states, calls, n, bin) == 0,
    decreases n,
{
    lemma_bins_sum_up_utilities(units(), states, calls, n, bin);
    if n > 0 {
        lemma_fixed_bins_sum_up_utilities(states, calls, n - 1, bin);
        lemma_bins_sum_up_utilities(units(), states, calls, n - 1, bin);
        assert(steps(states[n - 1], calls[n - 1], states[n]));
        assert(keeps_sums_exact(states[n - 1], calls[n - 1], states[n]));
    }
}

/// Making room for more propagators does not change the sum of any bin.
proof fn lemma_total_accomodated<N: Number>(
    reading: spec_fn(N) -> int,
    utilities: Seq<N>,
    longer: Seq<N>,
    bases: Seq<Option<Priority>>,
    index: nat,
    bin: int,
)
    requires
        forall|i: int| 0 <= i < bases.len() ==> #[trigger] longer[i] == utilities[i],
    ensures
        bin_total(reading, longer, accomodated(bases, index, None), bin) == bin_total(
            reading,
            utilities,
            bases,
            bin,
        ),
    decreases index,
{
    let extended = accomodated(bases, index, None);
    if bases.len() > index {
        lemma_total_same(reading, utilities, longer, bases, bin);
    } else if bases.len() < index {
        lemma_total_accomodated(reading, utilities, longer, bases, (index - 1) as nat, bin);
        assert(extended.drop_last() =~= accomodated(bases, (index - 1) as nat, None));
    } else {
        assert(extended.drop_last() =~= bases);
        lemma_total_same(reading, utilities, longer, bases, bin);
    }
}

/// The sum of a bin depends only on the utilities of known propagators.
proof fn lemma_total_same<N: Number>(
    reading: spec_fn(N) -> int,
    utilities: Seq<N>,
    longer: Seq<N>,
    bases: Seq<Option<Priority>>,
    bin: int,
)
    requires
        forall|i: int| 0 <= i < bases.len() ==> #[trigger] longer[i] == utilities[i],
    ensures
        bin_total(reading, longer, bases, bin) == bin_total(reading, utilities, bases, bin),
    decreases bases.len(),
{
    if bases.len() > 0 {
        lemma_total_same(reading, utilities, longer, bases.drop_last(), bin);
        assert(longer[bases.len() - 1] == utilities[bases.len() - 1]);
    }
}

/// A new utility changes the sum of the bin that its propagator belongs to by the difference.
proof fn lemma_total_utility<N: Number>(
    reading: spec_fn(N) -> int,
    utilities: Seq<N>,
    bases: Seq<Option<Priority>>,
    k: int,
    utility: N,
    bin: int,
)
    requires
        0 <= k < bases.len() <= utilities.len(),
    ensures
        bin_total(reading, utilities.update(k, utility), bases, bin) == bin_total(
            reading,
            utilities,
            bases,
            bin,
        ) + if belongs(bases[k], bin) {
            reading(utility) - reading(utilities[k])
        } else {
            0
        },
    decreases bases.len(),
{
    if k == bases.len() - 1 {
        lemma_total_same(reading, utilities, utilities.update(k, utility), bases.drop_last(), bin);
    } else {
        lemma_total_utility(reading, utilities, bases.drop_last(), k, utility, bin);
    }
}

/// A propagator that was in no bin adds its utility to the bin that it joins.
proof fn lemma_total_join<N: Number>(
    reading: spec_fn(N) -> int,
    utilities: Seq<N>,
    bases: Seq<Option<Priority>>,
    k: int,
    priority: Priority,
    bin: int,
)
    requires
        0 <= k < bases.len(),
        bases[k] is None,
    ensures
        bin_total(reading, utilities, bases.update(k, Some(priority)), bin) == bin_total(
            reading,
            utilities,
            bases,
            bin,
        ) + if priority.level() == bin {
            reading(utilities[k])
        } else {
            0
        },
    decreases bases.len(),
{
    let joined = bases.update(k, Some(priority));
    if k == bases.len() - 1 {
        assert(joined.drop_last() =~= bases.drop_last());
    } else {
        assert(joined.drop_last() =~= bases.drop_last().update(k, Some(priority)));
        lemma_total_join(reading, utilities, bases.drop_last(), k, priority, bin);
    }
}

} // verus!
