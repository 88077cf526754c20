//! What notifications and decisions do to a brancher that follows the activity of variables.

use crate::assignments::{all_fixed, domains_wf, is_fixed, AssignmentsModel};
use crate::branching::brancher::{
    is_course, Brancher, BrancherCall, BrancherEvent, Notification,
};
use crate::branching::dormant::identifiers;
use crate::branching::variable_activity_branching::{
    lemma_decides_until_all_fixed, lemma_synchronising_wakes_all, DefaultBrancher,
    VariableActivitySearch,
};
use crate::containers::key_value_heap::lemma_present_at_most_values;
use crate::number::{tally, OrderedNumber};
use crate::predicates::Predicate;
use crate::variables::{domain_id, DomainId};
use vstd::prelude::*;

verus! {

/// The activity of the variable at position `k`, which is zero as long as it has none.
pub open spec fn activity_of<N: OrderedNumber, B>(
    brancher: VariableActivitySearch<N, B>,
    k: int,
) -> N {
    if 0 <= k < brancher.heap@.values.len() {
        brancher.heap@.values[k]
    } else {
        N::whole_spec(0)
    }
}

/// When a predicate of any kind appears in a conflict, the activity of its variable grows by the
/// increment, and the variable takes part in the search. If the activity would not stay below the
/// threshold, all activities and the increment are divided by the threshold first. No other
/// activity changes.
pub proof fn lemma_appearance_raises_activity<N: OrderedNumber, B: Brancher>(
    before: VariableActivitySearch<N, B>,
    predicate: Predicate,
    after: VariableActivitySearch<N, B>,
    k: int,
)
    requires
        VariableActivitySearch::reacts(
            before,
            Notification::AppearanceInConflict(predicate),
            after,
        ),
    ensures
        ({
            let d = predicate.domain.id as int;
            let threshold = before.max_threshold;
            let fits = activity_of(before, d).plus_spec(before.increment).less_spec(threshold);
            &&& fits ==> {
                &&& after.increment == before.increment
                &&& activity_of(after, d) == activity_of(before, d).plus_spec(before.increment)
                &&& k != d ==> activity_of(after, k) == activity_of(before, k)
            }
            &&& !fits ==> {
                &&& after.increment == before.increment.over_spec(threshold)
                &&& activity_of(after, d) == activity_of(before, d).over_spec(threshold).plus_spec(
                    after.increment,
                )
                &&& k != d && 0 <= k < after.heap@.values.len() ==> activity_of(after, k)
                    == activity_of(before, k).over_spec(threshold)
            }
            &&& d < after.heap@.values.len()
            &&& before.heap@.values.len() <= after.heap@.values.len()
            &&& after.heap@.values.len() <= before.heap@.values.len() || after.heap@.values.len()
                == d + 1
            &&& after.heap@.present.contains(d)
            &&& before.heap@.present.contains(k) ==> after.heap@.present.contains(k)
            &&& after.heap@.present.contains(k) && k != d && k < before.heap@.values.len()
                ==> before.heap@.present.contains(k)
        }),
        after.dormant_variables == before.dormant_variables,
        after.should_synchronise == before.should_synchronise,
        after.max_threshold == before.max_threshold,
        after.decay_factor == before.decay_factor,
        before.statistics.num_predicates_added < usize::MAX
            ==> after.statistics.num_predicates_added == before.statistics.num_predicates_added + 1,
        after.statistics.num_calls == before.statistics.num_calls,
{
}

/// Only appearances in conflicts change activities. A conflict multiplies the increment by one
/// over the decay factor, synchronising has the dormant variables restored before the next
/// decision, and nothing else changes anything but the backup.
pub proof fn lemma_other_notifications<N: OrderedNumber, B: Brancher>(
    before: VariableActivitySearch<N, B>,
    notification: Notification,
    after: VariableActivitySearch<N, B>,
)
    requires
        VariableActivitySearch::reacts(before, notification, after),
        notification !is AppearanceInConflict,
    ensures
        after.heap == before.heap,
        after.dormant_variables == before.dormant_variables,
        after.max_threshold == before.max_threshold,
        after.decay_factor == before.decay_factor,
        after.statistics == before.statistics,
        notification is Conflict ==> after.increment == before.increment.times_spec(
            N::whole_spec(1).over_spec(before.decay_factor),
        ),
        notification !is Conflict ==> after.increment == before.increment,
        notification is Synchronise ==> after.should_synchronise,
        notification !is Synchronise ==> after.should_synchronise == before.should_synchronise,
{
}

/// The backup is notified of everything but learned nogoods, which change nothing at all; the
/// brancher asks to be notified of what it uses and of what its backup uses; and it never takes a
/// restart for pointless.
pub proof fn lemma_backup_is_notified<N: OrderedNumber, B: Brancher>(
    before: VariableActivitySearch<N, B>,
    notification: Notification,
    after: VariableActivitySearch<N, B>,
    event: BrancherEvent,
    answer: bool,
    asked: VariableActivitySearch<N, B>,
)
    requires
        VariableActivitySearch::reacts(before, notification, after),
        VariableActivitySearch::judges_restart(before, answer, asked),
    ensures
        notification !is LearnedNogood ==> B::reacts(
            before.backup_brancher,
            notification,
            after.backup_brancher,
        ),
        notification is LearnedNogood ==> after == before,
        before.events().contains(event) <==> event is Solution || event is Conflict
            || event is Backtrack || event is Synchronise || event is AppearanceInConflictPredicate
            || before.backup_brancher.events().contains(event),
        before.events().len() == 5 + before.backup_brancher.events().len(),
        !answer,
        asked == before,
{
    let others = before.backup_brancher.events();
    let events = before.events();
    assert(events[0] == BrancherEvent::Solution);
    assert(events[1] == BrancherEvent::Conflict);
    assert(events[2] == BrancherEvent::Backtrack);
    assert(events[3] == BrancherEvent::Synchronise);
    assert(events[4] == BrancherEvent::AppearanceInConflictPredicate);
    if others.contains(event) {
        assert(events[5 + others.index_of(event)] == event);
    }
    if events.contains(event) {
        let i = events.index_of(event);
        if i >= 5 {
            assert(others[i - 5] == event);
        }
    }
}

/// How often a predicate on the variable at position `k` appeared in a conflict in the first `n`
/// calls.
pub open spec fn appearances(calls: Seq<BrancherCall>, n: int, k: int) -> nat
    decreases n,
{
    if n <= 0 {
        0
    } else {
        appearances(calls, n - 1, k) + match calls[n - 1] {
            BrancherCall::Notify(Notification::AppearanceInConflict(predicate))
                if predicate.domain.id == k => 1nat,
            _ => 0nat,
        }
    }
}

/// What the activity of the variable at position `k` has come to after the first `n` calls: every
/// appearance of a predicate on the variable adds the increment of the time, and whenever the
/// appearance of any predicate would lift its variable to the threshold, everything is divided by
/// the threshold first.
pub open spec fn gathered<N: OrderedNumber, B>(
    states: Seq<VariableActivitySearch<N, B>>,
    calls: Seq<BrancherCall>,
    n: int,
    k: int,
) -> N
    decreases n,
{
    if n <= 0 {
        N::whole_spec(0)
    } else {
        let earlier = gathered(states, calls, n - 1, k);
        let increment = states[n - 1].increment;
        let threshold = states[0].max_threshold;
        match calls[n - 1] {
            BrancherCall::Notify(Notification::AppearanceInConflict(predicate)) => {
                let d = predicate.domain.id as int;
                let fits = gathered(states, calls, n - 1, d).plus_spec(increment).less_spec(
                    threshold,
                );
                if fits {
                    if d == k {
                        earlier.plus_spec(increment)
                    } else {
                        earlier
                    }
                } else if d == k {
                    earlier.over_spec(threshold).plus_spec(increment.over_spec(threshold))
                } else {
                    earlier.over_spec(threshold)
                }
            },
            _ => earlier,
        }
    }
}

/// After any calls on a new brancher, the activity of every variable is what the appearances of
/// predicates on it have come to, and every variable that has appeared has an activity.
pub proof fn lemma_activities_count_appearances<N: OrderedNumber, B: Brancher>(
    states: Seq<VariableActivitySearch<N, B>>,
    calls: Seq<BrancherCall>,
    n: int,
    k: int,
)
    requires
        is_course(states, calls),
        states[0].is_new(),
        0 <= n <= calls.len(),
        N::whole_spec(0).over_spec(states[0].max_threshold) == N::whole_spec(0),
    ensures
        activity_of(states[n], k) == gathered(states, calls, n, k),
        appearances(calls, n, k) > 0 ==> 0 <= k < states[n].heap@.values.len(),
        states[n].max_threshold == states[0].max_threshold,
    decreases n,
{
    if n > 0 {
        let before = states[n - 1];
        let after = states[n];
        lemma_activities_count_appearances(states, calls, n - 1, k);
        match calls[n - 1] {
            BrancherCall::Notify(notification) => {
                assert(VariableActivitySearch::reacts(before, notification, after));
                if let Notification::AppearanceInConflict(predicate) = notification {
                    let d = predicate.domain.id as int;
                    lemma_activities_count_appearances(states, calls, n - 1, d);
                    lemma_appearance_raises_activity(before, predicate, after, k);
                } else {
                    lemma_other_notifications(before, notification, after);
                }
            },
            BrancherCall::Decide(assignments, decision) => {
                assert(VariableActivitySearch::decides(before, assignments, decision, after));
            },
        }
    }
}

/// After any calls on a new brancher without a conflict in which no activity reaches the
/// threshold, the activity of every variable is the number of appearances of predicates on it,
/// whatever their kind.
pub proof fn lemma_activity_is_number_of_appearances<N: OrderedNumber, B: Brancher>(
    states: Seq<VariableActivitySearch<N, B>>,
    calls: Seq<BrancherCall>,
    n: int,
    k: int,
)
    requires
        is_course(states, calls),
        states[0].is_new(),
        0 <= n <= calls.len(),
        forall|i: int|
            0 <= i < n ==> #[trigger] calls[i] != BrancherCall::Notify(Notification::Conflict),
        forall|i: int|
            0 <= i < n ==> (#[trigger] calls[i] matches BrancherCall::Notify(
                Notification::AppearanceInConflict(predicate),
            ) ==> activity_of(states[i], predicate.domain.id as int).plus_spec(
                states[i].increment,
            ).less_spec(states[i].max_threshold)),
    ensures
        activity_of(states[n], k) == tally(N::whole_spec(1), appearances(calls, n, k)),
        states[n].increment == N::whole_spec(1),
    decreases n,
{
    if n > 0 {
        let before = states[n - 1];
        let after = states[n];
        lemma_activity_is_number_of_appearances(states, calls, n - 1, k);
        assert(calls[n - 1] != BrancherCall::Notify(Notification::Conflict));
        match calls[n - 1] {
            BrancherCall::Notify(notification) => {
                assert(VariableActivitySearch::reacts(before, notification, after));
                if let Notification::AppearanceInConflict(predicate) = notification {
                    lemma_appearance_raises_activity(before, predicate, after, k);
                } else {
                    lemma_other_notifications(before, notification, after);
                }
            },
            BrancherCall::Decide(assignments, decision) => {
                assert(VariableActivitySearch::decides(before, assignments, decision, after));
            },
        }
    }
}

/// A new brancher has no activities; it adds one at first, divides by ten to the power of a
/// hundred once that is reached, and has a decay factor of 0.95.
pub proof fn lemma_new_brancher<N: OrderedNumber, B>(brancher: VariableActivitySearch<N, B>)
    requires
        brancher.is_new(),
    ensures
        brancher.heap@.values.len() == 0,
        brancher.heap@.present.is_empty(),
        brancher.dormant_variables@.len() == 0,
        brancher.increment == N::whole_spec(1),
        brancher.max_threshold == N::decimal_spec(1, 100),
        brancher.decay_factor == N::decimal_spec(95, (-2) as i32),
        !brancher.should_synchronise,
        brancher.statistics.num_calls == 0,
        brancher.statistics.num_predicates_added == 0,
        brancher.statistics.num_predicates_removed == 0,
        brancher.statistics.num_backup_called == 0,
        brancher.statistics.num_assigned_predicates_encountered == 0,
        brancher.statistics.average_size_of_heap.sum == 0,
        brancher.statistics.average_size_of_heap.num_terms == 0,
{
}

/// Whether the variable at position `k` is searched for a decision: it has an activity and is in
/// the heap, or is put back into it because the solver has synchronised.
pub open spec fn is_searched<N: OrderedNumber, B>(
    brancher: VariableActivitySearch<N, B>,
    k: int,
) -> bool {
    &&& 0 <= k < brancher.heap@.values.len()
    &&& brancher.heap@.present.contains(k) || brancher.should_synchronise
}

/// If some variable that is searched has more than one value left, the decision is to keep the
/// lower half of the values between the bounds of such a variable, and no other such variable is
/// more active. If not, there is no decision if every variable has one value left, and otherwise
/// the backup decides.
pub proof fn lemma_splits_most_active<N: OrderedNumber, B: Brancher>(
    before: VariableActivitySearch<N, B>,
    assignments: AssignmentsModel,
    decision: Option<Predicate>,
    after: VariableActivitySearch<N, B>,
    k: int,
)
    requires
        domains_wf(assignments),
        before.can_decide(assignments),
        VariableActivitySearch::decides(before, assignments, decision, after),
    ensures
        is_searched(before, k) && assignments[k].lower < assignments[k].upper ==> {
            &&& decision matches Some(predicate)
            &&& is_searched(before, predicate.domain.id as int)
            &&& predicate.predicate_type is UpperBound
            &&& assignments[predicate.domain.id as int].lower
                < assignments[predicate.domain.id as int].upper
            &&& 2 * predicate.value <= assignments[predicate.domain.id as int].lower
                + assignments[predicate.domain.id as int].upper <= 2 * predicate.value + 1
            &&& !before.heap@.values[predicate.domain.id as int].less_spec(before.heap@.values[k])
            &&& after.backup_brancher == before.backup_brancher
        },
        (forall|j: int| #[trigger]
            is_searched(before, j) ==> assignments[j].lower == assignments[j].upper) ==> {
            if forall|i: int|
                0 <= i < assignments.len() ==> (#[trigger] assignments[i]).lower
                    == assignments[i].upper {
                decision is None && after.backup_brancher == before.backup_brancher
            } else {
                B::decides(
                    before.backup_brancher,
                    assignments,
                    decision,
                    after.backup_brancher,
                )
            }
        },
{
    lemma_searched(before, k);
    let heap = before.heap_to_search();
    let dormant = if before.should_synchronise {
        Seq::empty()
    } else {
        before.dormant_variables@
    };
    let passed = after.dormant_variables@.skip(dormant.len() as int);
    after.heap.lemma_view();
    before.heap.lemma_view();
    if is_searched(before, k) && assignments[k].lower < assignments[k].upper {
        if !after.heap@.present.contains(k) {
            assert(identifiers(passed).contains(k));
            let i = identifiers(passed).index_of(k);
            assert(is_fixed(assignments, passed[i]));
        }
        let d = decision->0.domain.id as int;
        assert(after.heap@.present.contains(d));
        lemma_searched(before, d);
        assert(assignments[d].wf());
    }
    if forall|j: int| #[trigger]
        is_searched(before, j) ==> assignments[j].lower == assignments[j].upper {
        if !after.heap@.present.is_empty() {
            let d = decision->0.domain.id as int;
            lemma_searched(before, d);
            assert(is_searched(before, d));
        }
        if all_fixed(assignments) {
            assert forall|i: int| 0 <= i < assignments.len() implies (
            #[trigger] assignments[i]).lower == assignments[i].upper by {
                assert(assignments[i].is_fixed());
            }
        }
    }
}

proof fn lemma_searched<N: OrderedNumber, B>(brancher: VariableActivitySearch<N, B>, k: int)
    requires
        brancher.wf(),
    ensures
        brancher.heap_to_search().present.contains(k) <==> is_searched(brancher, k),
        brancher.heap_to_search().values == brancher.heap@.values,
{
    brancher.heap.lemma_view();
    if brancher.should_synchronise {
        lemma_synchronising_wakes_all(brancher);
    }
}

/// Deciding changes no activity and no parameter. Variables are put to sleep only if they have one
/// value left, and only those that come up before the decision; they stay asleep until the solver
/// has synchronised, which wakes all of them, and no variable with an activity is ever lost.
pub proof fn lemma_sleeps_until_synchronised<N: OrderedNumber, B: Brancher>(
    before: VariableActivitySearch<N, B>,
    assignments: AssignmentsModel,
    decision: Option<Predicate>,
    after: VariableActivitySearch<N, B>,
    k: int,
)
    requires
        before.can_decide(assignments),
        VariableActivitySearch::decides(before, assignments, decision, after),
    ensures
        after.heap@.values == before.heap@.values,
        after.increment == before.increment,
        after.max_threshold == before.max_threshold,
        after.decay_factor == before.decay_factor,
        !after.should_synchronise,
        after.heap@.present.contains(k) ==> is_searched(before, k),
        is_searched(before, k) && !after.heap@.present.contains(k) ==> assignments[k].lower
            == assignments[k].upper,
        is_searched(before, k) && !after.heap@.present.contains(k) ==> forall|j: int| #[trigger]
            after.heap@.present.contains(j) ==> !before.heap@.values[k].less_spec(
                before.heap@.values[j],
            ),
        0 <= k < after.heap@.values.len() && !after.heap@.present.contains(k) ==> exists|i: int|
            0 <= i < after.dormant_variables@.len() && (#[trigger] after.dormant_variables@[i]).id
                == k,
        !before.should_synchronise ==> before.dormant_variables@.is_prefix_of(
            after.dormant_variables@,
        ),
        forall|i: int|
            0 <= i < after.dormant_variables@.len() && (before.should_synchronise || i
                >= before.dormant_variables@.len()) ==> assignments[(
            #[trigger] after.dormant_variables@[i]).id as int].lower
                == assignments[after.dormant_variables@[i].id as int].upper
                && !after.heap@.present.contains(after.dormant_variables@[i].id as int),
{
    lemma_searched(before, k);
    let dormant = if before.should_synchronise {
        Seq::empty()
    } else {
        before.dormant_variables@
    };
    let passed = after.dormant_variables@.skip(dormant.len() as int);
    after.heap.lemma_view();
    if is_searched(before, k) && !after.heap@.present.contains(k) {
        assert(identifiers(passed).contains(k));
        let i = identifiers(passed).index_of(k);
        assert(is_fixed(assignments, passed[i]));
        assert forall|j: int| #[trigger]
            after.heap@.present.contains(j) implies !before.heap@.values[k].less_spec(
            before.heap@.values[j],
        ) by {
            lemma_searched(before, j);
            assert(identifiers(passed)[i] == k);
        }
    }
    if 0 <= k < after.heap@.values.len() && !after.heap@.present.contains(k) {
        assert(identifiers(after.dormant_variables@).contains(k));
        let i = identifiers(after.dormant_variables@).index_of(k);
        assert(after.dormant_variables@[i].id == k);
    }
    assert forall|i: int|
        0 <= i < after.dormant_variables@.len() && i >= dormant.len() implies assignments[(
    #[trigger] after.dormant_variables@[i]).id as int].lower
        == assignments[after.dormant_variables@[i].id as int].upper
        && !after.heap@.present.contains(after.dormant_variables@[i].id as int) by {
        assert(passed[i - dormant.len()] == after.dormant_variables@[i]);
        assert(identifiers(passed)[i - dormant.len()] == after.dormant_variables@[i].id);
        assert(is_fixed(assignments, passed[i - dormant.len()]));
    }
}

/// Every decision that is asked for is counted, together with the number of variables in the heap
/// and the number of those that are passed over; appearances and calls of the backup are not
/// counted by it.
pub proof fn lemma_decisions_are_counted<N: OrderedNumber, B: Brancher>(
    before: VariableActivitySearch<N, B>,
    assignments: AssignmentsModel,
    decision: Option<Predicate>,
    after: VariableActivitySearch<N, B>,
)
    requires
        before.can_decide(assignments),
        VariableActivitySearch::decides(before, assignments, decision, after),
    ensures
        after.statistics.num_calls == before.statistics.num_calls + 1,
        after.statistics.average_size_of_heap.sum == before.statistics.average_size_of_heap.sum
            + before.heap@.present.len(),
        after.statistics.average_size_of_heap.num_terms
            == before.statistics.average_size_of_heap.num_terms + 1,
        after.statistics.num_assigned_predicates_encountered
            == before.statistics.num_assigned_predicates_encountered
            + after.dormant_variables@.len() - if before.should_synchronise {
            0
        } else {
            before.dormant_variables@.len()
        },
        after.statistics.num_predicates_added == before.statistics.num_predicates_added,
        after.statistics.num_predicates_removed == before.statistics.num_predicates_removed,
        after.statistics.num_backup_called == before.statistics.num_backup_called,
{
    before.heap.lemma_view();
    lemma_present_at_most_values(before.heap@);
    let dormant: Seq<DomainId> = if before.should_synchronise {
        Seq::empty()
    } else {
        before.dormant_variables@
    };
    let passed = after.dormant_variables@.skip(dormant.len() as int);
    let heap = before.heap_to_search();
    let ids = identifiers(passed);
    ids.unique_seq_to_set();
    let all = vstd::set_lib::set_int_range(0, before.heap@.values.len() as int);
    vstd::set_lib::lemma_int_range(0, before.heap@.values.len() as int);
    assert forall|k: int| ids.to_set().contains(k) implies all.contains(k) by {
        let i = ids.index_of(k);
        assert(heap.present.contains(ids[i]));
        lemma_searched(before, k);
    }
    vstd::set_lib::lemma_len_subset(ids.to_set(), all);
}

/// The brancher logs what it has counted, where it is told to.
pub proof fn lemma_logs<N: OrderedNumber, B: Brancher>(
    brancher: VariableActivitySearch<N, B>,
    prefix: Seq<&'static str>,
)
    ensures
        brancher.logged(prefix).len() == 1,
        brancher.logged(prefix)[0] == (prefix, brancher.statistics),
{
}

/// A brancher whose backup was made for all variables has no decision exactly if every variable
/// has one value left, and its backup assigns the variables in the order of their creation.
pub proof fn lemma_default_decides_until_all_fixed<N: OrderedNumber>(
    before: DefaultBrancher<N>,
    assignments: AssignmentsModel,
    decision: Option<Predicate>,
    after: DefaultBrancher<N>,
    i: int,
)
    requires
        assignments.len() <= 0x1_0000_0000,
        before.is_backed_over(assignments),
        before.can_decide(assignments),
        DefaultBrancher::decides(before, assignments, decision, after),
        0 <= i < assignments.len(),
    ensures
        before.backup_brancher.variable_selector.variables@.len() == assignments.len(),
        before.backup_brancher.variable_selector.variables@[i].id == i,
        decision is None <==> forall|j: int|
            0 <= j < assignments.len() ==> (#[trigger] assignments[j]).lower
                == assignments[j].upper,
{
    let variables = before.backup_brancher.variable_selector.variables@;
    assert forall|j: int| 0 <= j < assignments.len() implies variables.contains(
        #[trigger] domain_id(j),
    ) by {
        assert(variables[j] == domain_id(j));
    }
    lemma_decides_until_all_fixed(before, assignments, decision, after);
    assert(all_fixed(assignments) <==> forall|j: int|
        0 <= j < assignments.len() ==> (#[trigger] assignments[j]).lower
            == assignments[j].upper) by {
        if all_fixed(assignments) {
            assert forall|j: int| 0 <= j < assignments.len() implies (
            #[trigger] assignments[j]).lower == assignments[j].upper by {
                assert(assignments[j].is_fixed());
            }
        }
    }
}

} // verus!
