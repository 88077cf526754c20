//! What single calls do to a queue of propagators.

use crate::number::{Number, OrderedNumber};
use crate::propagation::{Priority, PropagatorId};
use crate::propagator_queue::{
    is_first_level, lemma_nearest, lemma_nearest_starts_at_greatest, lemma_ranking, members,
    numbered, total, waits_at, PropagatorQueue, UtilityStatistics,
};
use crate::propagator_utility::PropagationOutcome;
use crate::queue_history::{steps, QueueCall};
use vstd::prelude::*;

verus! {

/// A new queue has no propagators; its bins have the averages 10, 1, 0.1 and 0, in this order of
/// rank, and its parameters are a decay of 0.8 and a weight of 1000.
pub proof fn lemma_new_queue<N: Number>(queue: PropagatorQueue<N>)
    requires
        queue.is_new(),
    ensures
        queue.num_enqueued == 0,
        forall|p: int| 0 <= p < queue.queues@.len() ==> (#[trigger] queue.queues@[p])@.len() == 0,
        queue.is_enqueued@.len() == 0,
        queue.propagator_utility@.len() == 0,
        queue.base_priorities@.len() == 0,
        queue.last_priorities@.len() == 0,
        queue.num_priority_changes == 0,
        forall|bin: int|
            0 <= bin < 4 ==> {
                &&& #[trigger] queue.bin_sums@[bin] == N::whole_spec(0)
                &&& queue.bin_counts@[bin] == 0
                &&& queue.sorted_bins@[bin] == (bin as usize, queue.bin_averages@[bin])
            },
        queue.bin_averages@[0] == N::whole_spec(10),
        queue.bin_averages@[1] == N::whole_spec(1),
        queue.bin_averages@[2] == N::decimal_spec(1, (-1) as i32),
        queue.bin_averages@[3] == N::whole_spec(0),
        queue.propagator_utility_decay == N::decimal_spec(8, (-1) as i32),
        queue.propagator_utility_conflict_weight == N::whole_spec(1000),
        queue.propagator_utility_formula is Default,
        !queue.dynamic_priority_adaptation,
        !queue.has_previous_static_priority,
{
    assert forall|p: int| 0 <= p < queue.queues@.len() implies (
    #[trigger] queue.queues@[p])@.len() == 0 by {
        assert(queue.levels()[p].len() == 0);
    }
}

/// A propagator that is not said to wait joins the end of the queue of the given priority, and is
/// said to wait from then on; nothing else moves.
pub proof fn lemma_enqueuing_appends<N: Number>(
    before: PropagatorQueue<N>,
    id: PropagatorId,
    priority: Priority,
    after: PropagatorQueue<N>,
)
    requires
        PropagatorQueue::enqueues(before, id, priority, after),
        priority.level() < before.queues@.len(),
        !before.has_previous_static_priority,
        id.0 >= before.is_enqueued@.len() || !before.is_enqueued@[id.0 as int],
    ensures
        after.queues@.len() == before.queues@.len(),
        after.queues@[priority.level() as int]@ == before.queues@[priority.level() as int]@.push(
            id,
        ),
        forall|p: int|
            0 <= p < before.queues@.len() && p != priority.level() ==> (
            #[trigger] after.queues@[p])@ == before.queues@[p]@,
        after.num_enqueued == before.num_enqueued + 1,
        id.0 < after.is_enqueued@.len(),
        after.is_enqueued@[id.0 as int],
        forall|k: int|
            0 <= k < after.is_enqueued@.len() && k != id.0 ==> (#[trigger] after.is_enqueued@[k]
                <==> k < before.is_enqueued@.len() && before.is_enqueued@[k]),
        before.is_enqueued@.len() <= after.is_enqueued@.len(),
{
    lemma_levels_agree(before, after);
}

/// If the priorities from a previous run are used, a propagator joins the end of the queue of the
/// priority that it had there, whatever priority it is given and whether it waits or not.
pub proof fn lemma_enqueuing_follows_previous_run<N: Number>(
    before: PropagatorQueue<N>,
    id: PropagatorId,
    priority: Priority,
    after: PropagatorQueue<N>,
)
    requires
        PropagatorQueue::enqueues(before, id, priority, after),
        before.has_previous_static_priority,
        before.previous_static_priority@[id.0 as int].1.level() < before.queues@.len(),
    ensures
        ({
            let level = before.previous_static_priority@[id.0 as int].1.level() as int;
            &&& after.queues@.len() == before.queues@.len()
            &&& after.queues@[level]@ == before.queues@[level]@.push(id)
            &&& forall|p: int|
                0 <= p < before.queues@.len() && p != level ==> (#[trigger] after.queues@[p])@
                    == before.queues@[p]@
        }),
        after.num_enqueued == before.num_enqueued + 1,
        id.0 < after.is_enqueued@.len(),
        after.is_enqueued@[id.0 as int],
        after.previous_static_priority == before.previous_static_priority,
        after.has_previous_static_priority,
{
    lemma_levels_agree(before, after);
}

/// Without priorities from a previous run, a propagator that is said to wait stays where it is.
pub proof fn lemma_enqueuing_twice_changes_nothing<N: Number>(
    before: PropagatorQueue<N>,
    id: PropagatorId,
    priority: Priority,
    after: PropagatorQueue<N>,
)
    requires
        PropagatorQueue::enqueues(before, id, priority, after),
        !before.has_previous_static_priority,
        id.0 < before.is_enqueued@.len(),
        before.is_enqueued@[id.0 as int],
    ensures
        after.queues@.len() == before.queues@.len(),
        forall|p: int|
            0 <= p < before.queues@.len() ==> (#[trigger] after.queues@[p])@
                == before.queues@[p]@,
        after.is_enqueued@ == before.is_enqueued@,
        after.num_enqueued == before.num_enqueued,
{
    lemma_levels_agree(before, after);
}

/// The queue of each level is what the levels say.
proof fn lemma_levels_agree<N: Number>(
    before: PropagatorQueue<N>,
    after: PropagatorQueue<N>,
)
    ensures
        before.levels().len() == before.queues@.len(),
        after.levels().len() == after.queues@.len(),
        forall|p: int|
            0 <= p < before.queues@.len() ==> (#[trigger] before.queues@[p])@ == before.levels()[p],
        forall|p: int|
            0 <= p < after.queues@.len() ==> (#[trigger] after.queues@[p])@ == after.levels()[p],
{
}

/// The propagator that is taken out is the first one of its queue, no propagator waits with a
/// sooner priority, and only it leaves: it is no longer said to wait.
pub proof fn lemma_pop_takes_the_next<N: Number>(
    before: PropagatorQueue<N>,
    id: PropagatorId,
    after: PropagatorQueue<N>,
) -> (level: int)
    requires
        before.wf(),
        PropagatorQueue::pops(before, Some(id), after),
    ensures
        0 <= level < before.queues@.len(),
        before.queues@[level]@.len() > 0,
        before.queues@[level]@[0] == id,
        forall|p: int| 0 <= p < level ==> (#[trigger] before.queues@[p])@.len() == 0,
        after.queues@.len() == before.queues@.len(),
        after.queues@[level]@ == before.queues@[level]@.skip(1),
        forall|p: int|
            0 <= p < before.queues@.len() && p != level ==> (#[trigger] after.queues@[p])@
                == before.queues@[p]@,
        after.num_enqueued == before.num_enqueued - 1,
        after.is_enqueued@.len() == before.is_enqueued@.len(),
        id.0 < after.is_enqueued@.len(),
        !after.is_enqueued@[id.0 as int],
        forall|k: int|
            0 <= k < after.is_enqueued@.len() && k != id.0 ==> #[trigger] after.is_enqueued@[k]
                == before.is_enqueued@[k],
{
    let level = choose|p: int|
        {
            &&& #[trigger] is_first_level(before.levels(), p)
            &&& id == before.levels()[p][0]
            &&& after.levels() == before.levels().update(p, before.levels()[p].drop_first())
            &&& after.is_enqueued@ == before.is_enqueued@.update(id.0 as int, false)
            &&& after.num_enqueued == before.num_enqueued - 1
        };
    lemma_levels_agree(before, after);
    assert(before.queues@[level]@ == before.levels()[level]);
    assert(after.queues@[level]@ == after.levels()[level]);
    assert(before.levels()[level].drop_first() =~= before.levels()[level].skip(1));
    assert(waits_at(before.levels(), id, level, 0));
    assert forall|p: int| 0 <= p < level implies (#[trigger] before.queues@[p])@.len() == 0 by {
        assert(before.levels()[p].len() == 0);
    }
    level
}

/// Taking out gives nothing exactly if all queues are empty, and then changes nothing.
pub proof fn lemma_pop_of_empty<N: Number>(
    before: PropagatorQueue<N>,
    r: Option<PropagatorId>,
    after: PropagatorQueue<N>,
)
    requires
        before.wf(),
        PropagatorQueue::pops(before, r, after),
    ensures
        r is None <==> forall|p: int|
            0 <= p < before.queues@.len() ==> (#[trigger] before.queues@[p])@.len() == 0,
        r is None ==> after == before,
{
    if let Some(id) = r {
        let level = lemma_pop_takes_the_next(before, id, after);
        assert(before.queues@[level]@.len() > 0);
    } else {
        assert forall|p: int| 0 <= p < before.queues@.len() implies (
        #[trigger] before.queues@[p])@.len() == 0 by {
            lemma_level_is_counted(before.levels(), p);
            assert(before.levels()[p] == before.queues@[p]@);
        }
    }
}

proof fn lemma_level_is_counted(levels: Seq<Seq<PropagatorId>>, p: int)
    requires
        0 <= p < levels.len(),
    ensures
        levels[p].len() <= total(levels),
    decreases levels.len(),
{
    if p < levels.len() - 1 {
        lemma_level_is_counted(levels.drop_last(), p);
    }
}

/// Taking all propagators out empties every queue, and none is said to wait any more.
pub proof fn lemma_clear_takes_all<N: Number>(
    before: PropagatorQueue<N>,
    after: PropagatorQueue<N>,
)
    requires
        PropagatorQueue::clears(before, after),
    ensures
        after.queues@.len() == before.queues@.len(),
        forall|p: int| 0 <= p < after.queues@.len() ==> (#[trigger] after.queues@[p])@.len() == 0,
        after.is_enqueued@.len() == before.is_enqueued@.len(),
        forall|k: int| 0 <= k < after.is_enqueued@.len() ==> !(#[trigger] after.is_enqueued@[k]),
        after.num_enqueued == 0,
{
    lemma_levels_agree(before, after);
    assert forall|p: int| 0 <= p < after.queues@.len() implies (
    #[trigger] after.queues@[p])@.len() == 0 by {
        assert(after.levels()[p].len() == 0);
    }
}

/// Who waits changes only by enqueuing, taking out and clearing; utilities and bins change only
/// by recording outcomes and asking for priorities; and the parameters only when they are set.
pub proof fn lemma_calls_keep_the_rest<N: Number>(
    before: PropagatorQueue<N>,
    call: QueueCall,
    after: PropagatorQueue<N>,
)
    requires
        steps(before, call, after),
    ensures
        call is Record || call is Calculate || call is Configure ==> {
            &&& after.queues == before.queues
            &&& after.is_enqueued == before.is_enqueued
            &&& after.num_enqueued == before.num_enqueued
            &&& after.present_priorities == before.present_priorities
            &&& after.last_priorities == before.last_priorities
            &&& after.num_priority_changes == before.num_priority_changes
        },
        call is Enqueue || call is Pop || call is Clear || call is Configure ==> {
            &&& after.propagator_utility == before.propagator_utility
            &&& after.base_priorities == before.base_priorities
            &&& after.bin_sums == before.bin_sums
            &&& after.bin_counts == before.bin_counts
            &&& after.bin_averages == before.bin_averages
            &&& after.sorted_bins == before.sorted_bins
        },
        call !is Configure ==> {
            &&& after.dynamic_priority_adaptation == before.dynamic_priority_adaptation
            &&& after.propagator_utility_formula == before.propagator_utility_formula
            &&& after.propagator_utility_decay == before.propagator_utility_decay
            &&& after.propagator_utility_conflict_weight
                == before.propagator_utility_conflict_weight
            &&& after.previous_static_priority == before.previous_static_priority
            &&& after.has_previous_static_priority == before.has_previous_static_priority
        },
{
}

/// If the priorities from a previous run are used, no outcome changes anything, and every
/// propagator gets the priority that it had there.
pub proof fn lemma_previous_run_decides<N: Number>(
    before: PropagatorQueue<N>,
    id: PropagatorId,
    outcome: PropagationOutcome,
    recorded: PropagatorQueue<N>,
    priority: Priority,
    r: Priority,
    asked: PropagatorQueue<N>,
)
    requires
        before.has_previous_static_priority,
        PropagatorQueue::records(before, id, outcome, recorded),
        PropagatorQueue::calculates(before, id, priority, r, asked),
    ensures
        recorded == before,
        asked == before,
        r == before.previous_static_priority@[id.0 as int].1,
{
}

/// The average of a bin is its sum over the number of its propagators; a bin without propagators
/// has the average 10, 1, 0.1 or 0. Once a propagator belongs to a bin, the bins are ranked by
/// their averages, the greatest first and equal ones by number, each of them once.
pub proof fn lemma_bins_are_ranked<N: OrderedNumber>(queue: PropagatorQueue<N>)
    requires
        queue.wf(),
    ensures
        forall|bin: int|
            0 <= bin < 4 && queue.bin_counts@[bin] > 0 ==> #[trigger] queue.bin_averages@[bin]
                == queue.bin_sums@[bin].over_spec(N::whole_spec(queue.bin_counts@[bin] as u128)),
        queue.bin_counts@[0] == 0 ==> queue.bin_averages@[0] == N::whole_spec(10),
        queue.bin_counts@[1] == 0 ==> queue.bin_averages@[1] == N::whole_spec(1),
        queue.bin_counts@[2] == 0 ==> queue.bin_averages@[2] == N::decimal_spec(1, (-1) as i32),
        queue.bin_counts@[3] == 0 ==> queue.bin_averages@[3] == N::whole_spec(0),
        (exists|bin: int| 0 <= bin < 4 && #[trigger] queue.bin_counts@[bin] > 0) ==> {
            &&& forall|i: int, j: int|
                0 <= i < j < 4 ==> {
                    &&& !(#[trigger] queue.sorted_bins@[i]).1.less_spec(
                        (#[trigger] queue.sorted_bins@[j]).1,
                    )
                    &&& queue.sorted_bins@[i].1 == queue.sorted_bins@[j].1
                        ==> queue.sorted_bins@[i].0 < queue.sorted_bins@[j].0
                }
        },
        forall|i: int|
            0 <= i < 4 ==> (#[trigger] queue.sorted_bins@[i]).0 < 4 && queue.sorted_bins@[i].1
                == queue.bin_averages@[queue.sorted_bins@[i].0 as int],
        forall|bin: usize|
            bin < 4 ==> queue.sorted_bins@.contains(
                (bin, #[trigger] queue.bin_averages@[bin as int]),
            ),
{
    let averages = queue.bin_averages@;
    lemma_ranking(averages);
    let by_number = numbered(averages);
    if queue.sorted_bins@ == by_number {
        assert forall|bin: usize| bin < 4 implies queue.sorted_bins@.contains(
            (bin, #[trigger] averages[bin as int]),
        ) by {
            assert(by_number[bin as int] == (bin, averages[bin as int]));
        }
    }
}

/// A propagator gets the priority whose level is the rank of the average that is nearest to its
/// utility, the first such rank, as long as any average is nearer than the greatest number, and
/// the soonest priority if none is. Asking does not change any utility, and a
/// propagator keeps the bin that it was first put into.
pub proof fn lemma_dynamic_priority<N: OrderedNumber>(
    before: PropagatorQueue<N>,
    id: PropagatorId,
    priority: Priority,
    r: Priority,
    after: PropagatorQueue<N>,
)
    requires
        before.wf(),
        after.wf(),
        !before.has_previous_static_priority,
        PropagatorQueue::calculates(before, id, priority, r, after),
    ensures
        id.0 < after.propagator_utility@.len(),
        after.propagator_utility@.len() >= before.propagator_utility@.len(),
        forall|k: int|
            0 <= k < after.propagator_utility@.len() ==> #[trigger] after.propagator_utility@[k]
                == if k < before.propagator_utility@.len() {
                before.propagator_utility@[k]
            } else {
                N::whole_spec(0)
            },
        id.0 < after.base_priorities@.len(),
        after.base_priorities@[id.0 as int] == if id.0 < before.base_priorities@.len()
            && before.base_priorities@[id.0 as int] is Some {
            before.base_priorities@[id.0 as int]
        } else {
            Some(priority)
        },
        forall|k: int|
            0 <= k < after.base_priorities@.len() && k != id.0
                ==> #[trigger] after.base_priorities@[k] == if k < before.base_priorities@.len() {
                before.base_priorities@[k]
            } else {
                None
            },
        forall|i: int, j: int|
            0 <= i < j < 4 ==> !(#[trigger] after.sorted_bins@[i]).1.less_spec(
                (#[trigger] after.sorted_bins@[j]).1,
            ),
        ({
            let utility = after.propagator_utility@[id.0 as int];
            let bins = after.sorted_bins@;
            let rank = r.level() as int;
            &&& (forall|i: int|
                0 <= i < 4 ==> !utility.minus_spec(
                    (#[trigger] bins[i]).1,
                ).magnitude_spec().less_spec(N::greatest_spec())) ==> r is High
            &&& (exists|i: int|
                0 <= i < 4 && utility.minus_spec(
                    (#[trigger] bins[i]).1,
                ).magnitude_spec().less_spec(N::greatest_spec())) ==> {
                &&& 0 <= rank < 4
                &&& forall|i: int|
                    0 <= i < 4 ==> !utility.minus_spec(
                        (#[trigger] bins[i]).1,
                    ).magnitude_spec().less_spec(
                        utility.minus_spec(bins[rank].1).magnitude_spec(),
                    )
                &&& forall|i: int|
                    0 <= i < rank ==> utility.minus_spec(
                        bins[rank].1,
                    ).magnitude_spec().less_spec(
                        utility.minus_spec((#[trigger] bins[i]).1).magnitude_spec(),
                    )
            }
        }),
{
    let utility = after.propagator_utility@[id.0 as int];
    lemma_nearest(after.sorted_bins@, utility, 4);
    lemma_nearest_starts_at_greatest(after.sorted_bins@, utility, 4);
    lemma_bins_are_ranked(after);
    let bin = after.base_priorities@[id.0 as int]->0.level() as int;
    lemma_member_is_counted(after.base_priorities@, id.0 as int, bin);
    assert(after.bin_counts@[bin] > 0);
}

proof fn lemma_member_is_counted(bases: Seq<Option<Priority>>, k: int, bin: int)
    requires
        0 <= k < bases.len(),
        bases[k] is Some,
        bases[k]->0.level() == bin,
    ensures
        members(bases, bin) > 0,
    decreases bases.len(),
{
    if k < bases.len() - 1 {
        lemma_member_is_counted(bases.drop_last(), k, bin);
    }
}

/// Of two propagators that are asked for under the same ranking, the more useful one never gets
/// the later priority, in any reading of the numbers as integers in which their order and their
/// distances from the averages are exact.
pub proof fn lemma_more_useful_runs_sooner<N: OrderedNumber>(
    reading: spec_fn(N) -> int,
    queue: PropagatorQueue<N>,
    better: PropagatorId,
    better_priority: Priority,
    r: Priority,
    after_better: PropagatorQueue<N>,
    worse: PropagatorId,
    worse_priority: Priority,
    s: Priority,
    after_worse: PropagatorQueue<N>,
)
    requires
        queue.wf(),
        after_better.wf(),
        after_worse.wf(),
        !queue.has_previous_static_priority,
        PropagatorQueue::calculates(queue, better, better_priority, r, after_better),
        PropagatorQueue::calculates(queue, worse, worse_priority, s, after_worse),
        after_better.sorted_bins@ == after_worse.sorted_bins@,
        forall|a: N, b: N| #[trigger] a.less_spec(b) <==> reading(a) < reading(b),
        forall|i: int|
            0 <= i < 4 ==> {
                let u = after_better.propagator_utility@[better.0 as int];
                let w = after_worse.propagator_utility@[worse.0 as int];
                let average = (#[trigger] after_better.sorted_bins@[i]).1;
                &&& reading(u.minus_spec(average).magnitude_spec()) == distance(
                    reading(u),
                    reading(average),
                )
                &&& reading(w.minus_spec(average).magnitude_spec()) == distance(
                    reading(w),
                    reading(average),
                )
                &&& u.minus_spec(average).magnitude_spec().less_spec(N::greatest_spec())
                &&& w.minus_spec(average).magnitude_spec().less_spec(N::greatest_spec())
            },
        reading(after_worse.propagator_utility@[worse.0 as int]) <= reading(
            after_better.propagator_utility@[better.0 as int],
        ),
    ensures
        r.level() <= s.level(),
{
    lemma_dynamic_priority(queue, better, better_priority, r, after_better);
    lemma_dynamic_priority(queue, worse, worse_priority, s, after_worse);
    let bins = after_better.sorted_bins@;
    assert(bins[0].1 == bins[0].1);
    let first = bins[r.level() as int];
    let second = bins[s.level() as int];
    if s.level() < r.level() {
        assert(!second.1.less_spec(first.1));
    }
}

/// How far apart two integers are.
pub open spec fn distance(a: int, b: int) -> int {
    if a < b {
        b - a
    } else {
        a - b
    }
}

/// Every known propagator is logged once, in the order of the identifiers, with its utility.
pub proof fn lemma_utilities_are_logged<N: Number>(
    queue: PropagatorQueue<N>,
    statistics: UtilityStatistics<N>,
    i: int,
)
    requires
        queue.logs(statistics),
        queue.propagator_utility@.len() <= 0x1_0000_0000,
        0 <= i < queue.propagator_utility@.len(),
    ensures
        statistics.number_of_propagators == queue.propagator_utility@.len(),
        statistics.utilities@.len() == statistics.number_of_propagators,
        statistics.utilities@[i].0.0 == i,
        statistics.utilities@[i].1 == queue.propagator_utility@[i],
{
}

/// A propagator that is asked for the first time joins the bin of its priority, which counts one
/// propagator more and adds its utility; no other bin changes, and later questions change none.
pub proof fn lemma_joins_bin_once<N: Number>(
    before: PropagatorQueue<N>,
    id: PropagatorId,
    priority: Priority,
    r: Priority,
    after: PropagatorQueue<N>,
    bin: int,
)
    requires
        before.wf(),
        after.wf(),
        !before.has_previous_static_priority,
        PropagatorQueue::calculates(before, id, priority, r, after),
        0 <= bin < 4,
    ensures
        ({
            let is_known = id.0 < before.base_priorities@.len()
                && before.base_priorities@[id.0 as int] is Some;
            if !is_known && bin == priority.level() {
                &&& after.bin_counts@[bin] == before.bin_counts@[bin] + 1
                &&& after.bin_sums@[bin] == before.bin_sums@[bin].plus_spec(
                    after.propagator_utility@[id.0 as int],
                )
                &&& after.bin_averages@[bin] == after.bin_sums@[bin].over_spec(
                    N::whole_spec(after.bin_counts@[bin] as u128),
                )
            } else {
                &&& after.bin_counts@[bin] == before.bin_counts@[bin]
                &&& after.bin_sums@[bin] == before.bin_sums@[bin]
                &&& after.bin_averages@[bin] == before.bin_averages@[bin]
            }
        }),
{
    let k = id.0 as int;
    let level = priority.level() as int;
    if !(id.0 < before.base_priorities@.len() && before.base_priorities@[k] is Some) {
        lemma_member_is_counted(after.base_priorities@, k, level);
        assert(after.bin_counts@[level] == members(after.base_priorities@, level));
        lemma_fewer_members(before.base_priorities@, k, level);
        assert(before.bin_counts@[level] == members(before.base_priorities@, level));
        assert(after.base_priorities@.len() == after.base_priorities.elements.len());
        assert(before.base_priorities@.len() == before.base_priorities.elements.len());
    }
}

proof fn lemma_fewer_members(bases: Seq<Option<Priority>>, k: int, bin: int)
    ensures
        members(bases, bin) <= bases.len(),
        0 <= k < bases.len() && bases[k] is None ==> members(bases, bin) < bases.len(),
    decreases bases.len(),
{
    if bases.len() > 0 {
        lemma_fewer_members(bases.drop_last(), k, bin);
    }
}

/// The outcome of a run changes the bin that its propagator belongs to by the difference of its
/// utilities, and no other bin; it changes no count and no propagator's bin.
pub proof fn lemma_run_changes_one_bin<N: Number>(
    before: PropagatorQueue<N>,
    id: PropagatorId,
    outcome: PropagationOutcome,
    after: PropagatorQueue<N>,
    bin: int,
)
    requires
        before.wf(),
        !before.has_previous_static_priority,
        PropagatorQueue::records(before, id, outcome, after),
        before.propagator_utility@.len() == before.base_priorities@.len(),
        0 <= bin < 4,
    ensures
        after.bin_counts == before.bin_counts,
        forall|k: int|
            0 <= k < after.base_priorities@.len() ==> #[trigger] after.base_priorities@[k] == if k
                < before.base_priorities@.len() {
                before.base_priorities@[k]
            } else {
                None
            },
        id.0 < before.base_priorities@.len() && before.base_priorities@[id.0 as int] is Some
            && before.base_priorities@[id.0 as int]->0.level() == bin ==> after.bin_sums@[bin]
            == before.bin_sums@[bin].minus_spec(
            before.propagator_utility@[id.0 as int],
        ).plus_spec(after.propagator_utility@[id.0 as int]),
        !(id.0 < before.base_priorities@.len() && before.base_priorities@[id.0 as int] is Some
            && before.base_priorities@[id.0 as int]->0.level() == bin) ==> {
            &&& after.bin_sums@[bin] == before.bin_sums@[bin]
            &&& after.bin_averages@[bin] == before.bin_averages@[bin]
        },
{
}

} // verus!
