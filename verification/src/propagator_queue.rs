//! The queue of propagators that wait to run.

use crate::containers::key_value_heap::lemma_not_below_is_transitive;
use crate::containers::keyed_vec::{accomodated, KeyedVec};
use crate::number::{Number, OrderedNumber};
use crate::propagation::{Priority, PropagatorId};
use crate::propagator_utility::{PropagationOutcome, PropagatorUtilityFormula};
use std::collections::VecDeque;
use vstd::prelude::*;

verus! {

/// Propagators that wait to run, by priority and in the order in which they were enqueued.
///
/// The queue also keeps track of how useful each propagator has been, and derives from that a
/// dynamic priority: each propagator belongs to the bin of the priority that it was first seen
/// with, the bins are ranked by the average utility of their propagators, and a propagator gets
/// the priority of the rank whose average is nearest to its own utility.
#[derive(Debug)]
pub struct PropagatorQueue<N> {
    /// The waiting propagators of each priority level.
    pub queues: Vec<VecDeque<PropagatorId>>,
    /// Which propagators wait.
    pub is_enqueued: KeyedVec<PropagatorId, bool>,
    /// How many propagators wait.
    pub num_enqueued: usize,
    /// How useful each propagator has been.
    pub propagator_utility: KeyedVec<PropagatorId, N>,
    /// The priority that each propagator was first seen with.
    pub base_priorities: KeyedVec<PropagatorId, Option<Priority>>,
    /// The sum of the utilities of the propagators in each bin, as far as the arithmetic is exact.
    pub bin_sums: [N; 4],
    /// The number of propagators in each bin.
    pub bin_counts: [usize; 4],
    /// The average utility of the propagators in each bin.
    pub bin_averages: [N; 4],
    /// The bins with their averages, best first.
    pub sorted_bins: [(usize, N); 4],
    /// The levels at which propagators wait, in ascending order.
    pub present_priorities: Vec<u32>,
    /// How often a propagator was enqueued with another priority than the time before.
    pub num_priority_changes: usize,
    /// The priority that each propagator was last enqueued with.
    pub last_priorities: KeyedVec<PropagatorId, Option<Priority>>,
    /// Whether changes of priorities are counted.
    pub dynamic_priority_adaptation: bool,
    /// How the usefulness of a run is measured.
    pub propagator_utility_formula: PropagatorUtilityFormula,
    /// The share that the utility of a propagator keeps with each run.
    pub propagator_utility_decay: N,
    /// How many removed values a conflict counts for.
    pub propagator_utility_conflict_weight: N,
    /// The utility and priority of each propagator from a previous run of the solver.
    pub previous_static_priority: KeyedVec<PropagatorId, (N, Priority)>,
    /// Whether the priorities from a previous run are used.
    pub has_previous_static_priority: bool,
}

/// The number of propagators at all levels.
pub open spec fn total(levels: Seq<Seq<PropagatorId>>) -> nat
    decreases levels.len(),
{
    if levels.len() == 0 {
        0
    } else {
        total(levels.drop_last()) + levels.last().len()
    }
}

/// Whether `id` waits at position `i` of level `p`.
pub open spec fn waits_at(
    levels: Seq<Seq<PropagatorId>>,
    id: PropagatorId,
    p: int,
    i: int,
) -> bool {
    0 <= p < levels.len() && 0 <= i < levels[p].len() && levels[p][i] == id
}

/// Whether `id` waits at any level.
pub open spec fn waits(levels: Seq<Seq<PropagatorId>>, id: PropagatorId) -> bool {
    exists|p: int, i: int| #[trigger] waits_at(levels, id, p, i)
}

/// Whether level `p` is the first one at which a propagator waits.
pub open spec fn is_first_level(levels: Seq<Seq<PropagatorId>>, p: int) -> bool {
    &&& 0 <= p < levels.len()
    &&& levels[p].len() > 0
    &&& forall|q: int| 0 <= q < p ==> (#[trigger] levels[q]).len() == 0
}

/// The value of the flag at `index`, which is `false` beyond the end.
pub open spec fn flag(flags: Seq<bool>, index: int) -> bool {
    0 <= index < flags.len() && flags[index]
}

/// The average of a bin without propagators.
pub open spec fn default_average<N: Number>(bin: int) -> N {
    if bin == 0 {
        N::whole_spec(10)
    } else if bin == 1 {
        N::whole_spec(1)
    } else if bin == 2 {
        N::decimal_spec(1, (-1) as i32)
    } else {
        N::whole_spec(0)
    }
}

/// The average of the bin `bin`.
pub open spec fn bin_average<N: Number>(sum: N, count: usize, bin: int) -> N {
    if count > 0 {
        sum.over_spec(N::whole_spec(count as u128))
    } else {
        default_average(bin)
    }
}

/// The bins after the one at position `j` has moved ahead of those before it that are worse.
pub open spec fn moved_ahead<N: Number>(bins: Seq<(usize, N)>, j: int) -> Seq<(usize, N)>
    decreases j,
{
    if j > 0 && bins[j - 1].1.less_spec(bins[j].1) {
        moved_ahead(bins.update(j, bins[j - 1]).update(j - 1, bins[j]), j - 1)
    } else {
        bins
    }
}

/// The bins `0` to `3` with their averages.
pub open spec fn numbered<N: Number>(averages: Seq<N>) -> Seq<(usize, N)> {
    seq![(0usize, averages[0]), (1usize, averages[1]), (2usize, averages[2]), (3usize, averages[3])]
}

/// The bins ranked by their averages, best first.
pub open spec fn ranked<N: Number>(averages: Seq<N>) -> Seq<(usize, N)> {
    moved_ahead(moved_ahead(moved_ahead(numbered(averages), 1), 2), 3)
}

/// The rank, out of the first `n`, whose average is nearest to `utility`, with its distance.
/// Of ranks at the same distance it is the first one.
pub open spec fn nearest<N: Number>(bins: Seq<(usize, N)>, utility: N, n: int) -> (int, N)
    decreases n,
{
    if n <= 0 {
        (0, N::greatest_spec())
    } else {
        let (best, distance) = nearest(bins, utility, n - 1);
        let candidate = utility.minus_spec(bins[n - 1].1).magnitude_spec();
        if candidate.less_spec(distance) {
            (n - 1, candidate)
        } else {
            (best, distance)
        }
    }
}

/// The utility of a propagator after one more run.
pub open spec fn decayed<N: Number>(utility: N, run_utility: N, decay: N) -> N {
    decay.times_spec(utility).plus_spec(
        N::whole_spec(1).minus_spec(decay).times_spec(run_utility),
    )
}

/// How many propagators belong to the bin `bin`.
pub open spec fn members(bases: Seq<Option<Priority>>, bin: int) -> nat
    decreases bases.len(),
{
    if bases.len() == 0 {
        0
    } else {
        members(bases.drop_last(), bin) + if belongs(bases.last(), bin) {
            1nat
        } else {
            0nat
        }
    }
}

/// Whether a propagator with the given base priority belongs to the bin `bin`.
pub open spec fn belongs(base: Option<Priority>, bin: int) -> bool {
    base matches Some(priority) && priority.level() == bin
}

/// A bin has at most as many propagators as are known.
proof fn lemma_members_bounded(bases: Seq<Option<Priority>>, bin: int)
    ensures
        members(bases, bin) <= bases.len(),
    decreases bases.len(),
{
    if bases.len() > 0 {
        lemma_members_bounded(bases.drop_last(), bin);
    }
}

/// Making room for more propagators puts none into a bin.
proof fn lemma_members_accomodated(bases: Seq<Option<Priority>>, index: nat, bin: int)
    ensures
        members(accomodated(bases, index, None), bin) == members(bases, bin),
    decreases index + 1 - bases.len(),
{
    if bases.len() <= index {
        let longer = accomodated(bases, index, None);
        if bases.len() < index {
            lemma_members_accomodated(bases, (index - 1) as nat, bin);
            assert(longer.drop_last() =~= accomodated(bases, (index - 1) as nat, None));
        } else {
            assert(longer.drop_last() =~= bases);
        }
    }
}

/// A propagator that was in no bin joins exactly one.
proof fn lemma_members_join(bases: Seq<Option<Priority>>, i: int, priority: Priority, bin: int)
    requires
        0 <= i < bases.len(),
        bases[i] is None,
    ensures
        members(bases.update(i, Some(priority)), bin) == members(bases, bin) + (
        if priority.level() == bin {
            1nat
        } else {
            0nat
        }),
        members(bases, bin) < bases.len(),
    decreases bases.len(),
{
    let updated = bases.update(i, Some(priority));
    if i == bases.len() - 1 {
        assert(updated.drop_last() =~= bases.drop_last());
        lemma_members_bounded(bases.drop_last(), bin);
    } else {
        assert(updated.drop_last() =~= bases.drop_last().update(i, Some(priority)));
        lemma_members_join(bases.drop_last(), i, priority, bin);
    }
}

/// Replacing the propagators of one level changes the total by the difference.
proof fn lemma_total_update(
    levels: Seq<Seq<PropagatorId>>,
    p: int,
    level: Seq<PropagatorId>,
)
    requires
        0 <= p < levels.len(),
    ensures
        total(levels.update(p, level)) == total(levels) - levels[p].len() + level.len(),
    decreases levels.len(),
{
    let updated = levels.update(p, level);
    if p == levels.len() - 1 {
        assert(updated.drop_last() =~= levels.drop_last());
    } else {
        assert(updated.drop_last() =~= levels.drop_last().update(p, level));
        lemma_total_update(levels.drop_last(), p, level);
    }
}

/// A level has at most as many propagators as there are.
proof fn lemma_level_within_total(levels: Seq<Seq<PropagatorId>>, p: int)
    requires
        0 <= p < levels.len(),
    ensures
        levels[p].len() <= total(levels),
    decreases levels.len(),
{
    if p < levels.len() - 1 {
        lemma_level_within_total(levels.drop_last(), p);
    }
}

/// If no propagator waits at any level, the total is zero.
proof fn lemma_total_of_empty(levels: Seq<Seq<PropagatorId>>)
    requires
        forall|p: int| 0 <= p < levels.len() ==> (#[trigger] levels[p]).len() == 0,
    ensures
        total(levels) == 0,
    decreases levels.len(),
{
    if levels.len() > 0 {
        lemma_total_of_empty(levels.drop_last());
    }
}

impl<N: Number> PropagatorQueue<N> {
    /// The waiting propagators of each priority level, in the order in which they run.
    pub open spec fn levels(&self) -> Seq<Seq<PropagatorId>> {
        self.queues@.map_values(|queue: VecDeque<PropagatorId>| queue@)
    }

    /// The count and the list of levels agree with the queues, and every propagator that is said
    /// to wait does.
    pub open spec fn wf(&self) -> bool {
        &&& self.queues@.len() <= u32::MAX
        &&& self.num_enqueued == total(self.levels())
        &&& forall|i: int, j: int|
            0 <= i < j < self.present_priorities@.len() ==> #[trigger] self.present_priorities@[i]
                < #[trigger] self.present_priorities@[j]
        &&& forall|i: int|
            0 <= i < self.present_priorities@.len() ==> (
            #[trigger] self.present_priorities@[i]) < self.levels().len()
                && self.levels()[self.present_priorities@[i] as int].len() > 0
        &&& forall|p: int|
            0 <= p < self.levels().len() && (#[trigger] self.levels()[p]).len() > 0
                ==> self.present_priorities@.contains(p as u32)
        &&& forall|id: PropagatorId, p: int, i: int| #[trigger]
            waits_at(self.levels(), id, p, i) ==> id.0 < self.is_enqueued@.len()
        &&& forall|id: PropagatorId| #[trigger]
            flag(self.is_enqueued@, id.0 as int) ==> waits(self.levels(), id)
        &&& self.bins_wf()
    }

    /// The bins count the propagators that belong to them, have the averages that follow from
    /// their sums, and are ranked by them; until a propagator has joined a bin they are ranked by
    /// number.
    pub open spec fn bins_wf(&self) -> bool {
        &&& forall|bin: int|
            0 <= bin < 4 ==> #[trigger] self.bin_counts@[bin] == members(
                self.base_priorities@,
                bin,
            )
        &&& forall|bin: int|
            0 <= bin < 4 ==> #[trigger] self.bin_averages@[bin] == bin_average(
                self.bin_sums@[bin],
                self.bin_counts@[bin],
                bin,
            )
        &&& self.sorted_bins@ == ranked(self.bin_averages@) || {
            &&& self.sorted_bins@ == numbered(self.bin_averages@)
            &&& forall|bin: int| 0 <= bin < 4 ==> #[trigger] self.bin_counts@[bin] == 0
        }
    }

    /// No propagator waits twice, and every one that waits is said to.
    pub open spec fn is_exclusive(&self) -> bool {
        &&& forall|id: PropagatorId, p: int, i: int| #[trigger]
            waits_at(self.levels(), id, p, i) ==> flag(self.is_enqueued@, id.0 as int)
        &&& forall|id: PropagatorId, p: int, i: int, q: int, j: int| #[trigger]
            waits_at(self.levels(), id, p, i) && #[trigger] waits_at(self.levels(), id, q, j)
                ==> p == q && i == j
    }

    /// Nothing has happened yet, and the parameters have their default values.
    pub open spec fn is_new(&self) -> bool {
        &&& self.wf()
        &&& self.is_exclusive()
        &&& forall|p: int| 0 <= p < self.levels().len() ==> (#[trigger] self.levels()[p]).len() == 0
        &&& self.num_enqueued == 0
        &&& self.is_enqueued@ == Seq::<bool>::empty()
        &&& self.propagator_utility@ == Seq::<N>::empty()
        &&& self.base_priorities@ == Seq::<Option<Priority>>::empty()
        &&& self.bin_sums@ == Seq::new(4, |i: int| N::whole_spec(0))
        &&& self.bin_counts@ == Seq::new(4, |i: int| 0usize)
        &&& self.bin_averages@ == Seq::new(4, |i: int| default_average::<N>(i))
        &&& self.sorted_bins@ == numbered(Seq::new(4, |i: int| default_average::<N>(i)))
        &&& self.num_priority_changes == 0
        &&& self.last_priorities@ == Seq::<Option<Priority>>::empty()
        &&& !self.dynamic_priority_adaptation
        &&& self.propagator_utility_formula == PropagatorUtilityFormula::Default
        &&& self.propagator_utility_decay == PropagatorUtilityFormula::default_decay::<N>()
        &&& self.propagator_utility_conflict_weight
            == PropagatorUtilityFormula::default_conflict_weight::<N>()
        &&& self.previous_static_priority@ == Seq::<(N, Priority)>::empty()
        &&& !self.has_previous_static_priority
    }

    /// Whether enqueuing the propagator with the given priority can turn `before` into `after`.
    pub open spec fn enqueues(
        before: Self,
        propagator_id: PropagatorId,
        priority: Priority,
        after: Self,
    ) -> bool {
        let id = propagator_id.0 as int;
        let level = if before.has_previous_static_priority {
            before.previous_static_priority@[id].1.level()
        } else {
            priority.level()
        };
        let known = accomodated(before.last_priorities@, id as nat, None);
        // The propagator joins the queue of its level ...
        &&& if before.has_previous_static_priority || !flag(before.is_enqueued@, id) {
            &&& after.levels() == before.levels().update(
                level as int,
                before.levels()[level as int].push(propagator_id),
            )
            &&& after.is_enqueued@ == accomodated(before.is_enqueued@, id as nat, false).update(
                id,
                true,
            )
            &&& after.num_enqueued == before.num_enqueued + 1
        } else {
            &&& after.levels() == before.levels()
            &&& after.is_enqueued@ == before.is_enqueued@
            &&& after.num_enqueued == before.num_enqueued
        }
        // ... and its priority is remembered and compared with the one before.
        &&& if before.dynamic_priority_adaptation {
            &&& after.last_priorities@ == known.update(id, Some(priority))
            &&& after.num_priority_changes == before.num_priority_changes + (if known[id] is Some
                && known[id] != Some(priority) {
                1int
            } else {
                0int
            })
        } else {
            &&& after.last_priorities@ == before.last_priorities@
            &&& after.num_priority_changes == before.num_priority_changes
        }
        &&& after == PropagatorQueue {
            queues: after.queues,
            is_enqueued: after.is_enqueued,
            num_enqueued: after.num_enqueued,
            present_priorities: after.present_priorities,
            num_priority_changes: after.num_priority_changes,
            last_priorities: after.last_priorities,
            ..before
        }
    }

    /// Whether taking out the next propagator can return `r` and turn `before` into `after`.
    pub open spec fn pops(before: Self, r: Option<PropagatorId>, after: Self) -> bool {
        &&& r is None <==> total(before.levels()) == 0
        &&& match r {
            Some(id) => exists|p: int|
                {
                    &&& #[trigger] is_first_level(before.levels(), p)
                    &&& id == before.levels()[p][0]
                    &&& after.levels() == before.levels().update(
                        p,
                        before.levels()[p].drop_first(),
                    )
                    &&& after.is_enqueued@ == before.is_enqueued@.update(id.0 as int, false)
                    &&& after.num_enqueued == before.num_enqueued - 1
                },
            None => after == before,
        }
        &&& after == PropagatorQueue {
            queues: after.queues,
            is_enqueued: after.is_enqueued,
            num_enqueued: after.num_enqueued,
            present_priorities: after.present_priorities,
            ..before
        }
    }

    /// Whether taking out all propagators turns `before` into `after`.
    pub open spec fn clears(before: Self, after: Self) -> bool {
        &&& after.levels() == Seq::new(
            before.levels().len(),
            |p: int| Seq::<PropagatorId>::empty(),
        )
        &&& after.is_enqueued@ == Seq::new(before.is_enqueued@.len(), |i: int| false)
        &&& after.num_enqueued == 0
        &&& after == PropagatorQueue {
            queues: after.queues,
            is_enqueued: after.is_enqueued,
            num_enqueued: after.num_enqueued,
            present_priorities: after.present_priorities,
            ..before
        }
    }

    /// Whether recording the outcome of a run of the propagator turns `before` into `after`.
    pub open spec fn records(
        before: Self,
        propagator_id: PropagatorId,
        outcome: PropagationOutcome,
        after: Self,
    ) -> bool {
        let id = propagator_id.0 as int;
        let utilities = accomodated(before.propagator_utility@, id as nat, N::whole_spec(0));
        let utility = decayed(
            utilities[id],
            before.propagator_utility_formula.run_utility(
                outcome,
                before.propagator_utility_conflict_weight,
            ),
            before.propagator_utility_decay,
        );
        &&& before.has_previous_static_priority ==> after == before
        &&& !before.has_previous_static_priority ==> {
            &&& after.propagator_utility@ == utilities.update(id, utility)
            &&& after.base_priorities@ == accomodated(before.base_priorities@, id as nat, None)
            &&& match after.base_priorities@[id] {
                Some(base) => {
                    let bin = base.level() as int;
                    let sum = before.bin_sums@[bin].minus_spec(utilities[id]).plus_spec(utility);
                    &&& after.bin_sums@ == before.bin_sums@.update(bin, sum)
                    &&& after.bin_averages@ == before.bin_averages@.update(
                        bin,
                        bin_average(sum, before.bin_counts@[bin], bin),
                    )
                    &&& after.sorted_bins@ == ranked(after.bin_averages@)
                },
                None => {
                    &&& after.bin_sums == before.bin_sums
                    &&& after.bin_averages == before.bin_averages
                    &&& after.sorted_bins == before.sorted_bins
                },
            }
        }
        &&& after == PropagatorQueue {
            propagator_utility: after.propagator_utility,
            base_priorities: after.base_priorities,
            bin_sums: after.bin_sums,
            bin_averages: after.bin_averages,
            sorted_bins: after.sorted_bins,
            ..before
        }
    }

    /// Whether asking for the dynamic priority of the propagator, which is given `priority`,
    /// returns `r` and turns `before` into `after`.
    pub open spec fn calculates(
        before: Self,
        propagator_id: PropagatorId,
        priority: Priority,
        r: Priority,
        after: Self,
    ) -> bool {
        let id = propagator_id.0 as int;
        let bin = priority.level() as int;
        let utilities = accomodated(before.propagator_utility@, id as nat, N::whole_spec(0));
        let bases = accomodated(before.base_priorities@, id as nat, None);
        let sum = before.bin_sums@[bin].plus_spec(utilities[id]);
        let count = (before.bin_counts@[bin] + 1) as usize;
        &&& before.has_previous_static_priority ==> {
            &&& r == before.previous_static_priority@[id].1
            &&& after == before
        }
        &&& !before.has_previous_static_priority ==> {
            &&& after.propagator_utility@ == utilities
            &&& if bases[id] is None {
                &&& after.base_priorities@ == bases.update(id, Some(priority))
                &&& after.bin_counts@ == before.bin_counts@.update(bin, count)
                &&& after.bin_sums@ == before.bin_sums@.update(bin, sum)
                &&& after.bin_averages@ == before.bin_averages@.update(
                    bin,
                    bin_average(sum, count, bin),
                )
                &&& after.sorted_bins@ == ranked(after.bin_averages@)
            } else {
                &&& after.base_priorities@ == bases
                &&& after.bin_counts == before.bin_counts
                &&& after.bin_sums == before.bin_sums
                &&& after.bin_averages == before.bin_averages
                &&& after.sorted_bins == before.sorted_bins
            }
            &&& r == Priority::at_level(nearest(after.sorted_bins@, utilities[id], 4).0)
        }
        &&& after == PropagatorQueue {
            propagator_utility: after.propagator_utility,
            base_priorities: after.base_priorities,
            bin_sums: after.bin_sums,
            bin_counts: after.bin_counts,
            bin_averages: after.bin_averages,
            sorted_bins: after.sorted_bins,
            ..before
        }
    }

    /// Whether `statistics` is what there is to log: one entry for each known propagator, in order.
    pub open spec fn logs(&self, statistics: UtilityStatistics<N>) -> bool {
        &&& statistics.number_of_propagators == self.propagator_utility@.len()
        &&& statistics.utilities@ == Seq::new(
            self.propagator_utility@.len(),
            |i: int| (PropagatorId(i as u32), self.propagator_utility@[i]),
        )
    }

    /// Creates a queue with the given number of priority levels.
    pub fn new(num_priority_levels: u32) -> (r: Self)
        ensures
            r.is_new(),
            r.levels().len() == num_priority_levels,
    {
        let mut queues: Vec<VecDeque<PropagatorId>> = Vec::new();
        let mut i: u32 = 0;
        while i < num_priority_levels
            invariant
                i <= num_priority_levels,
                queues@.len() == i,
                forall|p: int| 0 <= p < i ==> (#[trigger] queues@[p])@.len() == 0,
            decreases num_priority_levels - i,
        {
            queues.push(VecDeque::new());
            i = i + 1;
        }
        let r = PropagatorQueue {
            queues,
            is_enqueued: KeyedVec::new(),
            num_enqueued: 0,
            propagator_utility: KeyedVec::new(),
            base_priorities: KeyedVec::new(),
            bin_sums: [N::whole(0), N::whole(0), N::whole(0), N::whole(0)],
            bin_counts: [0, 0, 0, 0],
            bin_averages: [N::whole(10), N::whole(1), N::decimal(1, -1), N::whole(0)],
            sorted_bins: [
                (0, N::whole(10)),
                (1, N::whole(1)),
                (2, N::decimal(1, -1)),
                (3, N::whole(0)),
            ],
            present_priorities: Vec::new(),
            num_priority_changes: 0,
            last_priorities: KeyedVec::new(),
            dynamic_priority_adaptation: false,
            propagator_utility_formula: PropagatorUtilityFormula::Default,
            propagator_utility_decay: N::decimal(8, -1),
            propagator_utility_conflict_weight: N::whole(1000),
            has_previous_static_priority: false,
            previous_static_priority: KeyedVec::new(),
        };
        proof {
            lemma_total_of_empty(r.levels());
            let averages = Seq::new(4, |i: int| default_average::<N>(i));
            assert(r.bin_sums@ =~= Seq::new(4, |i: int| N::whole_spec(0)));
            assert(r.bin_counts@ =~= Seq::new(4, |i: int| 0usize));
            assert(r.bin_averages@ =~= averages);
            assert(r.sorted_bins@ =~= numbered(averages));
        }
        r
    }

    /// Returns whether no propagator waits.
    pub fn is_empty(&self) -> (r: bool)
        requires
            self.wf(),
        ensures
            r == (total(self.levels()) == 0),
            r <==> forall|p: int|
                0 <= p < self.levels().len() ==> (#[trigger] self.levels()[p]).len() == 0,
    {
        proof {
            if self.num_enqueued == 0 {
                assert forall|p: int| 0 <= p < self.levels().len() implies (
                #[trigger] self.levels()[p]).len() == 0 by {
                    lemma_level_within_total(self.levels(), p);
                }
            } else {
                if forall|p: int|
                    0 <= p < self.levels().len() ==> (#[trigger] self.levels()[p]).len() == 0 {
                    lemma_total_of_empty(self.levels());
                }
            }
        }
        self.num_enqueued == 0
    }

    /// Returns whether the propagator waits, as far as it is known.
    pub fn is_propagator_enqueued(&self, propagator_id: PropagatorId) -> (r: bool)
        ensures
            r == flag(self.is_enqueued@, propagator_id.0 as int),
            self.wf() && self.is_exclusive() ==> r == waits(self.levels(), propagator_id),
    {
        let r: bool = match self.is_enqueued.get(propagator_id) {
            Some(enqueued) => enqueued,
            None => false,
        };
        assert(r == flag(self.is_enqueued@, propagator_id.0 as int));
        r
    }

    /// Appends the propagator to the queue of the given level.
    fn join_level(&mut self, propagator_id: PropagatorId, level: usize)
        requires
            old(self).wf(),
            level < old(self).levels().len(),
            old(self).num_enqueued < usize::MAX,
        ensures
            final(self).wf(),
            final(self).levels() == old(self).levels().update(
                level as int,
                old(self).levels()[level as int].push(propagator_id),
            ),
            final(self).is_enqueued@ == accomodated(
                old(self).is_enqueued@,
                propagator_id.0 as nat,
                false,
            ).update(propagator_id.0 as int, true),
            old(self).is_exclusive() && !flag(old(self).is_enqueued@, propagator_id.0 as int)
                ==> final(self).is_exclusive(),
            *final(self) == (PropagatorQueue {
                queues: final(self).queues,
                is_enqueued: final(self).is_enqueued,
                num_enqueued: (old(self).num_enqueued + 1) as usize,
                present_priorities: final(self).present_priorities,
                ..*old(self)
            }),
    {
        let ghost before = self.levels();
        self.is_enqueued.accomodate(propagator_id, false);
        self.is_enqueued.set(propagator_id, true);
        self.num_enqueued = self.num_enqueued + 1;

        if self.queues[level].len() == 0 {
            insert_priority(&mut self.present_priorities, level as u32);
        }
        self.queues[level].push_back(propagator_id);

        proof {
            let after = self.levels();
            let end = before[level as int].len() as int;
            assert(after =~= before.update(
                level as int,
                before[level as int].push(propagator_id),
            ));
            lemma_total_update(before, level as int, before[level as int].push(propagator_id));
            assert forall|id: PropagatorId, p: int, i: int| #[trigger]
                waits_at(after, id, p, i) implies waits_at(before, id, p, i) || p == level && i
                == end && id == propagator_id by {
            }
            assert forall|id: PropagatorId, p: int, i: int| #[trigger]
                waits_at(before, id, p, i) implies waits_at(after, id, p, i) by {
            }
            assert(waits_at(after, propagator_id, level as int, end));
            assert forall|id: PropagatorId| #[trigger]
                flag(self.is_enqueued@, id.0 as int) implies waits(after, id) by {
                if id != propagator_id {
                    assert(flag(old(self).is_enqueued@, id.0 as int));
                    let (p, i) = choose|p: int, i: int| #[trigger] waits_at(before, id, p, i);
                    assert(waits_at(after, id, p, i));
                }
            }
            assert forall|p: int|
                0 <= p < after.len() && (#[trigger] after[p]).len()
                    > 0 implies self.present_priorities@.contains(p as u32) by {
                if p != level {
                    assert(before[p].len() > 0);
                }
            }
            assert forall|i: int| 0 <= i < self.present_priorities@.len() implies (
            #[trigger] self.present_priorities@[i]) < after.len()
                && after[self.present_priorities@[i] as int].len() > 0 by {
                let p = self.present_priorities@[i];
                assert(self.present_priorities@.contains(p));
                if p != level {
                    let j = old(self).present_priorities@.index_of(p);
                    assert(old(self).present_priorities@[j] == p);
                }
            }
        }
    }

    /// Enqueues the propagator with the given priority, unless it waits already.
    ///
    /// If the priorities from a previous run are used, the propagator is enqueued with the one
    /// that it had there, even if it waits already.
    pub fn enqueue_propagator(&mut self, propagator_id: PropagatorId, priority: Priority)
        requires
            old(self).wf(),
            priority.level() < old(self).levels().len(),
            old(self).num_enqueued < usize::MAX,
            old(self).dynamic_priority_adaptation ==> old(self).num_priority_changes < usize::MAX,
            old(self).has_previous_static_priority ==> {
                &&& propagator_id.0 < old(self).previous_static_priority@.len()
                &&& old(self).previous_static_priority@[propagator_id.0 as int].1.level()
                    < old(self).levels().len()
            },
        ensures
            final(self).wf(),
            Self::enqueues(*old(self), propagator_id, priority, *final(self)),
            old(self).is_exclusive() && !old(self).has_previous_static_priority
                ==> final(self).is_exclusive(),
    {
        if self.dynamic_priority_adaptation {
            self.last_priorities.accomodate(propagator_id, None);
            if let Some(last) = self.last_priorities.at(propagator_id) {
                if last != priority {
                    self.num_priority_changes = self.num_priority_changes + 1;
                }
            }
            self.last_priorities.set(propagator_id, Some(priority));
        }

        if self.has_previous_static_priority {
            let (_, static_priority) = self.previous_static_priority.at(propagator_id);
            self.join_level(propagator_id, static_priority.index());
            return ;
        }

        if !self.is_propagator_enqueued(propagator_id) {
            self.join_level(propagator_id, priority.index());
        }
    }

    /// Takes the propagator that is to run next out of the queue: the one that has waited longest
    /// at the first level at which any waits.
    pub fn pop(&mut self) -> (r: Option<PropagatorId>)
        requires
            old(self).wf(),
        ensures
            final(self).wf(),
            Self::pops(*old(self), r, *final(self)),
            old(self).is_exclusive() ==> final(self).is_exclusive(),
            old(self).is_exclusive() ==> (r matches Some(id) ==> !waits(
                final(self).levels(),
                id,
            )),
    {
        let ghost before = self.levels();
        if self.present_priorities.len() == 0 {
            proof {
                assert forall|p: int| 0 <= p < before.len() implies (
                #[trigger] before[p]).len() == 0 by {
                }
                lemma_total_of_empty(before);
            }
            return None;
        }
        let top_priority: usize = self.present_priorities[0] as usize;
        let ghost top = top_priority as int;
        proof {
            assert forall|q: int| 0 <= q < top implies (#[trigger] before[q]).len() == 0 by {
                if before[q].len() > 0 {
                    let i = self.present_priorities@.index_of(q as u32);
                    assert(self.present_priorities@[i] == q as u32);
                }
            }
            assert(is_first_level(before, top));
            lemma_level_within_total(before, top);
            assert(waits_at(before, before[top][0], top, 0));
        }

        let next_propagator_id: Option<PropagatorId> = self.queues[top_priority].pop_front();

        if let Some(propagator_id) = next_propagator_id {
            self.is_enqueued.set(propagator_id, false);

            if self.queues[top_priority].len() == 0 {
                let _ = self.present_priorities.remove(0);
            }
        }

        self.num_enqueued = self.num_enqueued - 1;

        proof {
            let after = self.levels();
            let id = before[top][0];
            assert(before[top].drop_first() =~= before[top].subrange(
                1,
                before[top].len() as int,
            ));
            assert(after =~= before.update(top, before[top].drop_first()));
            lemma_total_update(before, top, before[top].drop_first());
            assert forall|other: PropagatorId, p: int, i: int| #[trigger]
                waits_at(after, other, p, i) implies waits_at(
                before,
                other,
                p,
                if p == top {
                    i + 1
                } else {
                    i
                },
            ) by {
            }
            assert forall|other: PropagatorId| #[trigger]
                flag(self.is_enqueued@, other.0 as int) implies waits(after, other) by {
                assert(other != id);
                assert(flag(old(self).is_enqueued@, other.0 as int));
                let (p, i) = choose|p: int, i: int| #[trigger] waits_at(before, other, p, i);
                assert(waits_at(
                    after,
                    other,
                    p,
                    if p == top {
                        i - 1
                    } else {
                        i
                    },
                ));
            }
            assert forall|p: int|
                0 <= p < after.len() && (#[trigger] after[p]).len()
                    > 0 implies self.present_priorities@.contains(p as u32) by {
                assert(before[p].len() > 0);
                let i = old(self).present_priorities@.index_of(p as u32);
                assert(old(self).present_priorities@[i] == p as u32);
                if after[top].len() == 0 {
                    assert(self.present_priorities@[i - 1] == p as u32);
                } else {
                    assert(self.present_priorities@[i] == p as u32);
                }
            }
        }
        next_propagator_id
    }

    /// Takes all propagators out of the queue.
    pub fn clear(&mut self)
        requires
            old(self).wf(),
        ensures
            final(self).wf(),
            final(self).is_exclusive(),
            Self::clears(*old(self), *final(self)),
    {
        while self.present_priorities.len() > 0
            invariant
                self.levels().len() == old(self).levels().len(),
                forall|i: int|
                    0 <= i < self.present_priorities@.len() ==> (
                    #[trigger] self.present_priorities@[i]) < self.levels().len(),
                forall|p: int|
                    0 <= p < self.levels().len() && (#[trigger] self.levels()[p]).len() > 0
                        ==> self.present_priorities@.contains(p as u32),
                self.levels().len() <= u32::MAX,
                *self == (PropagatorQueue {
                    queues: self.queues,
                    present_priorities: self.present_priorities,
                    ..*old(self)
                }),
            decreases self.present_priorities@.len(),
        {
            let ghost levels = self.levels();
            let ghost present = self.present_priorities@;
            let priority: usize = self.present_priorities.remove(0) as usize;
            self.queues[priority].clear();
            proof {
                assert(self.levels() =~= levels.update(priority as int, Seq::empty()));
                assert forall|p: int|
                    0 <= p < self.levels().len() && (#[trigger] self.levels()[p]).len()
                        > 0 implies self.present_priorities@.contains(p as u32) by {
                    assert(levels[p].len() > 0);
                    let i = present.index_of(p as u32);
                    assert(present[i] == p as u32);
                    assert(self.present_priorities@[i - 1] == p as u32);
                }
            }
        }

        let mut i: usize = 0;
        while i < self.is_enqueued.len()
            invariant
                i <= self.is_enqueued@.len(),
                self.is_enqueued@.len() == old(self).is_enqueued@.len(),
                forall|j: int| 0 <= j < i ==> !(#[trigger] self.is_enqueued@[j]),
                self.levels().len() == old(self).levels().len(),
                self.levels().len() <= u32::MAX,
                self.present_priorities@.len() == 0,
                forall|p: int|
                    0 <= p < self.levels().len() ==> (#[trigger] self.levels()[p]).len() == 0,
                *self == (PropagatorQueue {
                    queues: self.queues,
                    present_priorities: self.present_priorities,
                    is_enqueued: self.is_enqueued,
                    ..*old(self)
                }),
            decreases self.is_enqueued@.len() - i,
        {
            self.is_enqueued.elements.set(i, false);
            i = i + 1;
        }
        self.num_enqueued = 0;
        proof {
            lemma_total_of_empty(self.levels());
            assert forall|p: int| 0 <= p < self.levels().len() implies #[trigger] self.levels()[p]
                == Seq::<PropagatorId>::empty() by {
                assert(self.levels()[p] =~= Seq::<PropagatorId>::empty());
            }
            assert(self.levels() =~= Seq::new(
                old(self).levels().len(),
                |p: int| Seq::<PropagatorId>::empty(),
            ));
            assert(self.is_enqueued@ =~= Seq::new(old(self).is_enqueued@.len(), |i: int| false));
        }
    }

    /// Computes the average of a bin anew, and ranks the bins by their averages.
    fn update_bin_average(&mut self, bin_idx: usize)
        ensures
            bin_idx >= 4 ==> *final(self) == *old(self),
            bin_idx < 4 ==> {
                &&& final(self).bin_averages@ == old(self).bin_averages@.update(
                    bin_idx as int,
                    bin_average(
                        old(self).bin_sums@[bin_idx as int],
                        old(self).bin_counts@[bin_idx as int],
                        bin_idx as int,
                    ),
                )
                &&& final(self).sorted_bins@ == ranked(final(self).bin_averages@)
            },
            *final(self) == (PropagatorQueue {
                bin_averages: final(self).bin_averages,
                sorted_bins: final(self).sorted_bins,
                ..*old(self)
            }),
    {
        if bin_idx >= 4 {
            return ;
        }
        let count: usize = self.bin_counts[bin_idx];
        if count > 0 {
            self.bin_averages[bin_idx] = self.bin_sums[bin_idx].over(N::whole(count as u128));
        } else {
            let defaults: [N; 4] = [
                N::whole(10),
                N::whole(1),
                N::decimal(1, -1),
                N::whole(0),
            ];
            self.bin_averages[bin_idx] = defaults[bin_idx];
        }

        self.sorted_bins = [
            (0, self.bin_averages[0]),
            (1, self.bin_averages[1]),
            (2, self.bin_averages[2]),
            (3, self.bin_averages[3]),
        ];
        assert(self.sorted_bins@ =~= numbered(self.bin_averages@));
        self.move_bin_ahead(1);
        self.move_bin_ahead(2);
        self.move_bin_ahead(3);
    }

    /// Moves the bin at position `position` ahead of those before it that are worse.
    fn move_bin_ahead(&mut self, position: usize)
        requires
            position < 4,
        ensures
            final(self).sorted_bins@ == moved_ahead(old(self).sorted_bins@, position as int),
            *final(self) == (PropagatorQueue {
                sorted_bins: final(self).sorted_bins,
                ..*old(self)
            }),
    {
        let mut j: usize = position;
        while j > 0 && self.sorted_bins[j - 1].1.less_than(self.sorted_bins[j].1)
            invariant
                j < 4,
                moved_ahead(self.sorted_bins@, j as int) == moved_ahead(
                    old(self).sorted_bins@,
                    position as int,
                ),
                *self == (PropagatorQueue { sorted_bins: self.sorted_bins, ..*old(self) }),
            decreases j,
        {
            let ghost bins = self.sorted_bins@;
            let worse: (usize, N) = self.sorted_bins[j - 1];
            let better: (usize, N) = self.sorted_bins[j];
            self.sorted_bins[j] = worse;
            self.sorted_bins[j - 1] = better;
            assert(self.sorted_bins@ =~= bins.update(j as int, worse).update(j - 1, better));
            j = j - 1;
        }
    }

    /// Takes the outcome of a run into account for the dynamic priority of the propagator.
    ///
    /// If the priorities from a previous run of the solver are used, nothing changes.
    pub fn record_propagation_outcome(
        &mut self,
        propagator_id: PropagatorId,
        outcome: PropagationOutcome,
    )
        requires
            old(self).wf(),
        ensures
            final(self).wf(),
            Self::records(*old(self), propagator_id, outcome, *final(self)),
    {
        if self.has_previous_static_priority {
            return ;
        }
        self.propagator_utility.accomodate(propagator_id, N::whole(0));
        self.base_priorities.accomodate(propagator_id, None);

        let old_util: N = self.propagator_utility.at(propagator_id);
        let run_util: N = self.propagator_utility_formula.measure(
            outcome,
            self.propagator_utility_conflict_weight,
        );
        let decay: N = self.propagator_utility_decay;
        let new_util: N = decay.times(old_util).plus(N::whole(1).minus(decay).times(run_util));
        self.propagator_utility.set(propagator_id, new_util);

        if let Some(base_priority) = self.base_priorities.at(propagator_id) {
            let bin_idx: usize = base_priority.index();
            self.bin_sums[bin_idx] = self.bin_sums[bin_idx].minus(old_util).plus(new_util);
            self.update_bin_average(bin_idx);
        }
        proof {
            assert(self.levels() == old(self).levels());
            assert forall|bin: int| 0 <= bin < 4 implies #[trigger] self.bin_counts@[bin]
                == members(self.base_priorities@, bin) by {
                lemma_members_accomodated(
                    old(self).base_priorities@,
                    propagator_id.0 as nat,
                    bin,
                );
                assert(old(self).bin_counts@[bin] == self.bin_counts@[bin]);
            }
            assert forall|bin: int| 0 <= bin < 4 implies #[trigger] self.bin_averages@[bin]
                == bin_average(self.bin_sums@[bin], self.bin_counts@[bin], bin) by {
                assert(old(self).bin_averages@[bin] == bin_average(
                    old(self).bin_sums@[bin],
                    old(self).bin_counts@[bin],
                    bin,
                ));
            }
        }
    }

    /// Returns the priority that the propagator deserves, given how useful it has been.
    ///
    /// A propagator that is seen for the first time joins the bin of `priority`. If the
    /// priorities from a previous run of the solver are used, the one from there is returned.
    pub fn calculate_dynamic_priority(
        &mut self,
        propagator_id: PropagatorId,
        priority: Priority,
    ) -> (r: Priority)
        requires
            old(self).wf(),
            old(self).has_previous_static_priority
                ==> propagator_id.0 < old(self).previous_static_priority@.len(),
        ensures
            final(self).wf(),
            Self::calculates(*old(self), propagator_id, priority, r, *final(self)),
    {
        if self.has_previous_static_priority {
            return self.previous_static_priority.at(propagator_id).1;
        }
        self.propagator_utility.accomodate(propagator_id, N::whole(0));
        self.base_priorities.accomodate(propagator_id, None);
        let ghost bases = self.base_priorities@;
        proof {
            assert forall|bin: int| 0 <= bin < 4 implies #[trigger] self.bin_counts@[bin]
                == members(bases, bin) by {
                lemma_members_accomodated(
                    old(self).base_priorities@,
                    propagator_id.0 as nat,
                    bin,
                );
            }
        }

        if self.base_priorities.at(propagator_id).is_none() {
            self.base_priorities.set(propagator_id, Some(priority));
            let bin_idx: usize = priority.index();
            proof {
                lemma_members_join(bases, propagator_id.0 as int, priority, bin_idx as int);
                assert(self.bin_counts@[bin_idx as int] == members(bases, bin_idx as int));
                assert(bases.len() == self.base_priorities.elements.len());
            }
            self.bin_counts[bin_idx] = self.bin_counts[bin_idx] + 1;
            let util: N = self.propagator_utility.at(propagator_id);
            self.bin_sums[bin_idx] = self.bin_sums[bin_idx].plus(util);
            self.update_bin_average(bin_idx);
            proof {
                assert forall|bin: int| 0 <= bin < 4 implies #[trigger] self.bin_counts@[bin]
                    == members(self.base_priorities@, bin) by {
                    lemma_members_join(bases, propagator_id.0 as int, priority, bin);
                    assert(old(self).bin_counts@[bin] == members(bases, bin));
                }
                assert forall|bin: int| 0 <= bin < 4 implies #[trigger] self.bin_averages@[bin]
                    == bin_average(self.bin_sums@[bin], self.bin_counts@[bin], bin) by {
                    assert(old(self).bin_averages@[bin] == bin_average(
                        old(self).bin_sums@[bin],
                        old(self).bin_counts@[bin],
                        bin,
                    ));
                }
            }
        }
        assert(self.levels() == old(self).levels());

        let util: N = self.propagator_utility.at(propagator_id);
        let mut best_idx: usize = 0;
        let mut min_dist: N = N::greatest();
        let mut i: usize = 0;
        while i < 4
            invariant
                i <= 4,
                best_idx < 4,
                nearest(self.sorted_bins@, util, i as int) == (best_idx as int, min_dist),
            decreases 4 - i,
        {
            let dist: N = util.minus(self.sorted_bins[i].1).magnitude();
            if dist.less_than(min_dist) {
                min_dist = dist;
                best_idx = i;
            }
            i = i + 1;
        }
        Priority::from_level(best_idx)
    }

    /// Returns how many propagators are known, and how useful each has been.
    pub fn log_statistics(&self) -> (r: UtilityStatistics<N>)
        requires
            self.propagator_utility@.len() <= 0x1_0000_0000,
        ensures
            self.logs(r),
            r.number_of_propagators == self.propagator_utility@.len(),
            r.utilities@ == Seq::new(
                self.propagator_utility@.len(),
                |i: int| (PropagatorId(i as u32), self.propagator_utility@[i]),
            ),
    {
        let number_of_propagators: usize = self.propagator_utility.len();
        let mut utilities: Vec<(PropagatorId, N)> = Vec::new();
        let mut i: usize = 0;
        while i < number_of_propagators
            invariant
                i <= number_of_propagators <= 0x1_0000_0000,
                number_of_propagators == self.propagator_utility@.len(),
                utilities@.len() == i,
                forall|j: int|
                    0 <= j < i ==> #[trigger] utilities@[j] == (
                        PropagatorId(j as u32),
                        self.propagator_utility@[j],
                    ),
            decreases number_of_propagators - i,
        {
            utilities.push((PropagatorId(i as u32), self.propagator_utility.elements[i]));
            i = i + 1;
        }
        assert(utilities@ =~= Seq::new(
            self.propagator_utility@.len(),
            |i: int| (PropagatorId(i as u32), self.propagator_utility@[i]),
        ));
        UtilityStatistics { number_of_propagators, utilities }
    }
}

/// What there is to log about the utilities of propagators.
#[derive(Debug)]
pub struct UtilityStatistics<N> {
    /// How many propagators are known.
    pub number_of_propagators: usize,
    /// How useful each propagator has been.
    pub utilities: Vec<(PropagatorId, N)>,
}

/// Adds a level to the levels, which are in ascending order and stay so.
fn insert_priority(levels: &mut Vec<u32>, level: u32)
    requires
        forall|i: int, j: int|
            0 <= i < j < old(levels)@.len() ==> #[trigger] old(levels)@[i]
                < #[trigger] old(levels)@[j],
        !old(levels)@.contains(level),
    ensures
        forall|i: int, j: int|
            0 <= i < j < final(levels)@.len() ==> #[trigger] final(levels)@[i]
                < #[trigger] final(levels)@[j],
        forall|other: u32| #[trigger]
            final(levels)@.contains(other) <==> old(levels)@.contains(other) || other == level,
{
    let ghost before = levels@;
    let mut position: usize = 0;
    while position < levels.len() && levels[position] < level
        invariant
            position <= levels@.len(),
            levels@ == before,
            forall|i: int| 0 <= i < position ==> #[trigger] levels@[i] < level,
        decreases levels@.len() - position,
    {
        position = position + 1;
    }
    proof {
        if position < before.len() {
            assert(before.contains(before[position as int]));
        }
    }
    levels.insert(position, level);
    proof {
        let after = levels@;
        assert(after =~= before.insert(position as int, level));
        assert forall|other: u32| #[trigger]
            after.contains(other) <==> before.contains(other) || other == level by {
            if before.contains(other) {
                let i = before.index_of(other);
                assert(after[if i < position {
                    i
                } else {
                    i + 1
                }] == other);
            }
            if other == level {
                assert(after[position as int] == other);
            }
            if after.contains(other) && other != level {
                let i = after.index_of(other);
                assert(before[if i < position {
                    i
                } else {
                    i - 1
                }] == other);
            }
        }
    }
}

impl<N: Number> Clone for PropagatorQueue<N> {
    fn clone(&self) -> (r: Self)
        ensures
            r.levels() == self.levels(),
            r.is_enqueued@ == self.is_enqueued@,
            r.propagator_utility@ == self.propagator_utility@,
            r.base_priorities@ == self.base_priorities@,
            r.present_priorities@ == self.present_priorities@,
            r.last_priorities@ == self.last_priorities@,
            r.previous_static_priority@ == self.previous_static_priority@,
            r == (PropagatorQueue {
                queues: r.queues,
                is_enqueued: r.is_enqueued,
                propagator_utility: r.propagator_utility,
                base_priorities: r.base_priorities,
                present_priorities: r.present_priorities,
                last_priorities: r.last_priorities,
                previous_static_priority: r.previous_static_priority,
                ..*self
            }),
    {
        let mut queues: Vec<VecDeque<PropagatorId>> = Vec::new();
        let mut p: usize = 0;
        while p < self.queues.len()
            invariant
                p <= self.queues@.len(),
                queues@.len() == p,
                forall|q: int| 0 <= q < p ==> (#[trigger] queues@[q])@ == self.queues@[q]@,
            decreases self.queues@.len() - p,
        {
            let queue: VecDeque<PropagatorId> = self.queues[p].clone();
            assert(queue@ =~= self.queues@[p as int]@);
            queues.push(queue);
            p = p + 1;
        }
        let present_priorities: Vec<u32> = self.present_priorities.clone();
        assert(present_priorities@ =~= self.present_priorities@);
        let r = PropagatorQueue {
            queues,
            is_enqueued: self.is_enqueued.clone(),
            num_enqueued: self.num_enqueued,
            propagator_utility: self.propagator_utility.clone(),
            base_priorities: self.base_priorities.clone(),
            bin_sums: self.bin_sums,
            bin_counts: self.bin_counts,
            bin_averages: self.bin_averages,
            sorted_bins: self.sorted_bins,
            present_priorities,
            num_priority_changes: self.num_priority_changes,
            last_priorities: self.last_priorities.clone(),
            dynamic_priority_adaptation: self.dynamic_priority_adaptation,
            propagator_utility_formula: self.propagator_utility_formula,
            propagator_utility_decay: self.propagator_utility_decay,
            propagator_utility_conflict_weight: self.propagator_utility_conflict_weight,
            previous_static_priority: self.previous_static_priority.clone(),
            has_previous_static_priority: self.has_previous_static_priority,
        };
        assert(r.levels() =~= self.levels());
        r
    }
}

impl<N: Number> Default for PropagatorQueue<N> {
    fn default() -> (r: Self)
        ensures
            r.is_new(),
            r.levels().len() == 5,
    {
        Self::new(5)
    }
}

/// The propagators in the order in which they run if none is added: level by level, and at each
/// level in the order in which they were enqueued.
pub open spec fn running_order(levels: Seq<Seq<PropagatorId>>) -> Seq<PropagatorId> {
    levels.flatten_alt()
}

/// Taking a propagator out takes the first one in the running order and leaves the others in
/// order.
pub proof fn lemma_pop_follows_running_order(levels: Seq<Seq<PropagatorId>>, p: int)
    requires
        is_first_level(levels, p),
    ensures
        running_order(levels) == seq![levels[p][0]] + running_order(
            levels.update(p, levels[p].drop_first()),
        ),
    decreases levels.len(),
{
    let after = levels.update(p, levels[p].drop_first());
    let shorter = levels.drop_last();
    if p == levels.len() - 1 {
        lemma_no_running_order(shorter);
        assert(after.drop_last() =~= shorter);
        assert(running_order(levels) =~= seq![levels[p][0]] + running_order(after));
    } else {
        assert(is_first_level(shorter, p)) by {
            assert(shorter[p] == levels[p]);
            assert forall|q: int| 0 <= q < p implies (#[trigger] shorter[q]).len() == 0 by {
                assert(levels[q].len() == 0);
            }
        }
        lemma_pop_follows_running_order(shorter, p);
        assert(after.drop_last() =~= shorter.update(p, shorter[p].drop_first()));
        assert(running_order(levels) =~= seq![levels[p][0]] + running_order(after));
    }
}

proof fn lemma_no_running_order(levels: Seq<Seq<PropagatorId>>)
    requires
        forall|p: int| 0 <= p < levels.len() ==> (#[trigger] levels[p]).len() == 0,
    ensures
        running_order(levels) == Seq::<PropagatorId>::empty(),
    decreases levels.len(),
{
    if levels.len() > 0 {
        assert forall|p: int| 0 <= p < levels.drop_last().len() implies (
        #[trigger] levels.drop_last()[p]).len() == 0 by {
            assert(levels[p].len() == 0);
        }
        lemma_no_running_order(levels.drop_last());
        assert(running_order(levels) =~= Seq::<PropagatorId>::empty());
    }
}

/// A propagator that is enqueued at level `p` runs after all that wait at that level or before it,
/// and before all that wait at later levels.
pub proof fn lemma_enqueue_follows_running_order(
    levels: Seq<Seq<PropagatorId>>,
    p: int,
    id: PropagatorId,
)
    requires
        0 <= p < levels.len(),
    ensures
        running_order(levels.update(p, levels[p].push(id))) == running_order(levels.take(p + 1))
            + seq![id] + running_order(levels).skip(running_order(levels.take(p + 1)).len() as int),
        running_order(levels.take(p + 1)).is_prefix_of(running_order(levels)),
    decreases levels.len(),
{
    let after = levels.update(p, levels[p].push(id));
    let before = running_order(levels.take(p + 1));
    let shorter = levels.drop_last();
    if p == levels.len() - 1 {
        assert(after.drop_last() =~= shorter);
        assert(levels.take(p + 1) =~= levels);
        assert(running_order(after) =~= before + seq![id] + running_order(levels).skip(
            before.len() as int,
        ));
    } else {
        lemma_enqueue_follows_running_order(shorter, p, id);
        assert(after.drop_last() =~= shorter.update(p, shorter[p].push(id)));
        assert(shorter.take(p + 1) =~= levels.take(p + 1));
        assert(running_order(levels).skip(before.len() as int) =~= running_order(shorter).skip(
            before.len() as int,
        ) + levels.last());
        assert(running_order(after) =~= before + seq![id] + running_order(levels).skip(
            before.len() as int,
        ));
    }
}

/// As many propagators run as wait.
pub proof fn lemma_running_order_is_complete(levels: Seq<Seq<PropagatorId>>)
    ensures
        running_order(levels).len() == total(levels),
    decreases levels.len(),
{
    if levels.len() > 0 {
        lemma_running_order_is_complete(levels.drop_last());
    }
}

/// Whether the bins in the positions before `n` are in descending order of their averages, bins
/// with the same average in ascending order of their numbers.
pub open spec fn is_ranked<N: Number>(bins: Seq<(usize, N)>, n: int) -> bool {
    forall|i: int, j: int|
        0 <= i < j < n ==> {
            &&& !(#[trigger] bins[i]).1.less_spec((#[trigger] bins[j]).1)
            &&& bins[i].1 == bins[j].1 ==> bins[i].0 < bins[j].0
        }
}

/// The bins are ranked by their averages, best first; each bin appears once, with its average.
pub proof fn lemma_ranking<N: OrderedNumber>(averages: Seq<N>)
    requires
        averages.len() == 4,
    ensures
        ranked(averages).len() == 4,
        is_ranked(ranked(averages), 4),
        forall|bin: usize|
            bin < 4 ==> ranked(averages).contains((bin, #[trigger] averages[bin as int])),
        forall|i: int|
            0 <= i < 4 ==> (#[trigger] ranked(averages)[i]).0 < 4 && ranked(averages)[i].1
                == averages[ranked(averages)[i].0 as int],
{
    let first = numbered(averages);
    let second = moved_ahead(first, 1);
    let third = moved_ahead(second, 2);
    lemma_moved_ahead(first, 1);
    lemma_moved_ahead(second, 2);
    lemma_moved_ahead(third, 3);
    assert forall|bin: usize| bin < 4 implies ranked(averages).contains(
        (bin, #[trigger] averages[bin as int]),
    ) by {
        assert(first[bin as int] == (bin, averages[bin as int]));
        assert(first.contains(first[bin as int]));
    }
    assert forall|i: int| 0 <= i < 4 implies (#[trigger] ranked(averages)[i]).0 < 4
        && ranked(averages)[i].1 == averages[ranked(averages)[i].0 as int] by {
        assert(ranked(averages).contains(ranked(averages)[i]));
        let j = first.index_of(ranked(averages)[i]);
        assert(first[j] == ranked(averages)[i]);
    }
}

/// Moving a bin ahead of the worse ones before it ranks it among them.
proof fn lemma_moved_ahead<N: OrderedNumber>(bins: Seq<(usize, N)>, j: int)
    requires
        0 <= j < bins.len(),
        is_ranked(bins, j),
        forall|i: int| 0 <= i < j ==> (#[trigger] bins[i]).0 < bins[j].0,
    ensures
        moved_ahead(bins, j).len() == bins.len(),
        is_ranked(moved_ahead(bins, j), j + 1),
        forall|k: int| j < k < bins.len() ==> #[trigger] moved_ahead(bins, j)[k] == bins[k],
        forall|bin: (usize, N)|
            bins.contains(bin) <==> #[trigger] moved_ahead(bins, j).contains(bin),
        forall|i: int|
            0 <= i <= j ==> (#[trigger] moved_ahead(bins, j)[i]).0 <= bins[j].0,
    decreases j,
{
    let moving = bins[j];
    if j > 0 && bins[j - 1].1.less_spec(moving.1) {
        let swapped = bins.update(j, bins[j - 1]).update(j - 1, moving);
        assert(is_ranked(swapped, j - 1)) by {
            assert forall|i: int, k: int| 0 <= i < k < j - 1 implies {
                &&& !(#[trigger] swapped[i]).1.less_spec((#[trigger] swapped[k]).1)
                &&& swapped[i].1 == swapped[k].1 ==> swapped[i].0 < swapped[k].0
            } by {
                assert(swapped[i] == bins[i] && swapped[k] == bins[k]);
            }
        }
        assert forall|i: int| 0 <= i < j - 1 implies (#[trigger] swapped[i]).0
            < swapped[j - 1].0 by {
            assert(swapped[i] == bins[i]);
        }
        lemma_moved_ahead(swapped, j - 1);
        let after = moved_ahead(swapped, j - 1);
        assert(after[j] == bins[j - 1]);
        assert forall|bin: (usize, N)| bins.contains(bin) <==> #[trigger] after.contains(bin) by {
            if bins.contains(bin) {
                let i = bins.index_of(bin);
                if i == j {
                    assert(swapped[j - 1] == bin);
                } else if i == j - 1 {
                    assert(swapped[j] == bin);
                } else {
                    assert(swapped[i] == bin);
                }
                assert(swapped.contains(bin));
            }
            if after.contains(bin) {
                assert(swapped.contains(bin));
                let i = swapped.index_of(bin);
                if i == j {
                    assert(bins[j - 1] == bin);
                } else if i == j - 1 {
                    assert(bins[j] == bin);
                } else {
                    assert(bins[i] == bin);
                }
            }
        }
        assert forall|i: int, k: int| 0 <= i < k < j + 1 implies {
            &&& !(#[trigger] after[i]).1.less_spec((#[trigger] after[k]).1)
            &&& after[i].1 == after[k].1 ==> after[i].0 < after[k].0
        } by {
            if k == j {
                lemma_ahead_of(bins, j, after, i);
            }
        }
    } else {
        assert forall|i: int, k: int| 0 <= i < k < j + 1 implies {
            &&& !(#[trigger] bins[i]).1.less_spec((#[trigger] bins[k]).1)
            &&& bins[i].1 == bins[k].1 ==> bins[i].0 < bins[k].0
        } by {
            if k == j && i < j - 1 {
                lemma_not_below_is_transitive(bins[i].1, bins[j - 1].1, bins[j].1);
            }
        }
    }
}

/// Every bin that ends up before the one that was passed last is ranked before it.
proof fn lemma_ahead_of<N: OrderedNumber>(
    bins: Seq<(usize, N)>,
    j: int,
    after: Seq<(usize, N)>,
    i: int,
)
    requires
        0 <= i < j < bins.len(),
        is_ranked(bins, j),
        bins[j - 1].1.less_spec(bins[j].1),
        after == moved_ahead(bins.update(j, bins[j - 1]).update(j - 1, bins[j]), j - 1),
    ensures
        !after[i].1.less_spec(bins[j - 1].1),
        after[i].1 == bins[j - 1].1 ==> after[i].0 < bins[j - 1].0,
{
    let swapped = bins.update(j, bins[j - 1]).update(j - 1, bins[j]);
    lemma_moved_ahead_within(swapped, j - 1, i);
    let k = choose|k: int| 0 <= k < j && after[i] == #[trigger] swapped[k];
    N::order_is_total(bins[j - 1].1, bins[j].1);
    if k < j - 1 {
        assert(swapped[k] == bins[k]);
    }
}

/// The bins up to the one that moves are those that were there before.
proof fn lemma_moved_ahead_within<N: OrderedNumber>(bins: Seq<(usize, N)>, j: int, i: int)
    requires
        0 <= i <= j < bins.len(),
    ensures
        exists|k: int| 0 <= k <= j && moved_ahead(bins, j)[i] == #[trigger] bins[k],
        forall|k: int| j < k < bins.len() ==> #[trigger] moved_ahead(bins, j)[k] == bins[k],
    decreases j,
{
    if j > 0 && bins[j - 1].1.less_spec(bins[j].1) {
        let swapped = bins.update(j, bins[j - 1]).update(j - 1, bins[j]);
        if i < j {
            lemma_moved_ahead_within(swapped, j - 1, i);
            let k = choose|k: int|
                0 <= k <= j - 1 && moved_ahead(swapped, j - 1)[i] == #[trigger] swapped[k];
            if k == j - 1 {
                assert(bins[j] == swapped[k]);
            } else {
                assert(bins[k] == swapped[k]);
            }
        } else {
            lemma_moved_ahead_within(swapped, j - 1, 0);
            assert(moved_ahead(bins, j)[i] == bins[j - 1]);
        }
    } else {
        assert(moved_ahead(bins, j)[i] == bins[i]);
    }
}

/// The rank that is found is the first one whose average is nearest to the utility, as long as
/// any average is nearer than the greatest number.
pub proof fn lemma_nearest<N: OrderedNumber>(bins: Seq<(usize, N)>, utility: N, n: int)
    requires
        0 <= n <= bins.len(),
    ensures
        ({
            let (best, distance) = nearest(bins, utility, n);
            &&& forall|i: int|
                0 <= i < n ==> !utility.minus_spec(
                    (#[trigger] bins[i]).1,
                ).magnitude_spec().less_spec(distance)
            &&& (exists|i: int|
                0 <= i < n && utility.minus_spec(
                    (#[trigger] bins[i]).1,
                ).magnitude_spec().less_spec(N::greatest_spec())) ==> {
                &&& 0 <= best < n
                &&& distance == utility.minus_spec(bins[best].1).magnitude_spec()
                &&& forall|i: int|
                    0 <= i < best ==> distance.less_spec(
                        utility.minus_spec((#[trigger] bins[i]).1).magnitude_spec(),
                    )
            }
        }),
    decreases n,
{
    let (best, distance) = nearest(bins, utility, n);
    if n > 0 {
        lemma_nearest(bins, utility, n - 1);
        let (earlier, previous) = nearest(bins, utility, n - 1);
        let candidate = utility.minus_spec(bins[n - 1].1).magnitude_spec();
        N::order_is_total(candidate, candidate);
        assert forall|i: int| 0 <= i < n - 1 && candidate.less_spec(previous) implies {
            let other = utility.minus_spec((#[trigger] bins[i]).1).magnitude_spec();
            candidate.less_spec(other)
        } by {
            let other = utility.minus_spec(bins[i].1).magnitude_spec();
            N::order_is_total(other, previous);
            if previous.less_spec(other) {
                N::order_is_transitive(candidate, previous, other);
            }
        }
        assert forall|i: int| 0 <= i < n - 1 implies !utility.minus_spec(
            (#[trigger] bins[i]).1,
        ).magnitude_spec().less_spec(distance) by {
            let other = utility.minus_spec(bins[i].1).magnitude_spec();
            N::order_is_total(other, candidate);
        }
        lemma_nearest_starts_at_greatest(bins, utility, n - 1);
    }
}

/// Unless some average is nearer than the greatest number, that number is the distance.
pub proof fn lemma_nearest_starts_at_greatest<N: OrderedNumber>(
    bins: Seq<(usize, N)>,
    utility: N,
    n: int,
)
    requires
        0 <= n <= bins.len(),
    ensures
        (forall|i: int|
            0 <= i < n ==> !utility.minus_spec(
                (#[trigger] bins[i]).1,
            ).magnitude_spec().less_spec(N::greatest_spec())) ==> nearest(bins, utility, n) == (
            0int,
            N::greatest_spec(),
        ),
    decreases n,
{
    if n > 0 {
        lemma_nearest_starts_at_greatest(bins, utility, n - 1);
        if forall|i: int|
            0 <= i < n ==> !utility.minus_spec(
                (#[trigger] bins[i]).1,
            ).magnitude_spec().less_spec(N::greatest_spec()) {
            assert(!utility.minus_spec(bins[n - 1].1).magnitude_spec().less_spec(
                N::greatest_spec(),
            ));
        }
    }
}

} // verus!
