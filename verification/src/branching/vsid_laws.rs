//! What notifications and decisions do to a brancher that follows the activity of predicates.

use crate::assignments::{
    all_fixed, domains_wf, is_fixed, is_undecided, knows, lemma_undecided, AssignmentsModel,
};
use crate::branching::brancher::{
    is_course, Brancher, BrancherCall, BrancherEvent, Notification,
};
use crate::branching::dormant::identifiers;
use crate::branching::variable_vsid::{
    all_divided, entries, has_nothing_useful, is_useless, lemma_decides_until_all_fixed,
    lemma_entries_finite, lemma_polarity_is_undecided, lemma_synchronising_wakes_all, polarity,
    searches, settled_entries, useless_taken_out, DefaultBrancher, VariableVsidBrancher,
};
use crate::containers::key_value_heap::lemma_present_at_most_values;
use crate::number::OrderedNumber;
use crate::predicates::{predicate_of, Predicate};
use crate::variables::domain_id;
use vstd::prelude::*;

verus! {

/// Something that has an activity.
pub enum Target {
    /// The variable at this position.
    Variable(int),
    /// This predicate.
    Predicate(Predicate),
}

/// Whether there is an entry for the activity of the target.
pub open spec fn has_activity<N: OrderedNumber, B>(
    brancher: VariableVsidBrancher<N, B>,
    target: Target,
) -> bool {
    match target {
        Target::Variable(k) => 0 <= k < brancher.variable_heap@.values.len(),
        Target::Predicate(predicate) => {
            &&& brancher.predicate_id_info@.contains(predicate)
            &&& brancher.predicate_heap@.contains_key(predicate.domain.id)
            &&& brancher.predicate_id_info@.index_of(predicate)
                < brancher.predicate_heap@[predicate.domain.id]@.values.len()
        },
    }
}

/// The activity of the target, which is zero as long as it has none.
pub open spec fn activity_of<N: OrderedNumber, B>(
    brancher: VariableVsidBrancher<N, B>,
    target: Target,
) -> N {
    if !has_activity(brancher, target) {
        N::whole_spec(0)
    } else {
        match target {
            Target::Variable(k) => brancher.variable_heap@.values[k],
            Target::Predicate(predicate) => brancher.predicate_heap@[predicate.domain.id]@.values[
            brancher.predicate_id_info@.index_of(predicate)],
        }
    }
}

/// Whether every entry of a predicate stands for a predicate that has an identifier.
pub open spec fn entries_are_named<N: OrderedNumber, B>(
    brancher: VariableVsidBrancher<N, B>,
) -> bool {
    forall|d: u32| #[trigger]
        brancher.predicate_heap@.contains_key(d) ==> brancher.predicate_heap@[d]@.values.len()
            <= brancher.predicate_id_info@.len()
}

/// When a predicate appears in a conflict, its activity and that of its variable grow by the
/// increment, and both take part in the search. If one of the two would not stay below the
/// threshold, all activities and the increment are divided by the threshold first. No other
/// activity changes.
pub proof fn lemma_appearance_raises_activity<N: OrderedNumber, B: Brancher>(
    before: VariableVsidBrancher<N, B>,
    predicate: Predicate,
    after: VariableVsidBrancher<N, B>,
    other: Target,
)
    requires
        before.wf(),
        entries_are_named(before),
        VariableVsidBrancher::reacts(
            before,
            Notification::AppearanceInConflict(predicate),
            after,
        ),
    ensures
        ({
            let variable = Target::Variable(predicate.domain.id as int);
            let itself = Target::Predicate(predicate);
            let threshold = before.max_threshold;
            let increment = before.increment;
            let fits = activity_of(before, variable).plus_spec(increment).less_spec(threshold)
                && activity_of(before, itself).plus_spec(increment).less_spec(threshold);
            &&& fits ==> {
                &&& after.increment == increment
                &&& activity_of(after, variable) == activity_of(before, variable).plus_spec(
                    increment,
                )
                &&& activity_of(after, itself) == activity_of(before, itself).plus_spec(increment)
                &&& other != variable && other != itself ==> activity_of(after, other)
                    == activity_of(before, other)
            }
            &&& !fits ==> {
                &&& after.increment == increment.over_spec(threshold)
                &&& activity_of(after, variable) == activity_of(before, variable).over_spec(
                    threshold,
                ).plus_spec(after.increment)
                &&& activity_of(after, itself) == activity_of(before, itself).over_spec(
                    threshold,
                ).plus_spec(after.increment)
                &&& other != variable && other != itself && has_activity(after, other)
                    ==> activity_of(after, other) == activity_of(before, other).over_spec(threshold)
            }
            &&& has_activity(after, variable) && has_activity(after, itself)
            &&& has_activity(before, other) ==> has_activity(after, other)
            &&& after.variable_heap@.present.contains(predicate.domain.id as int)
            &&& after.predicate_heap@[predicate.domain.id]@.present.contains(
                after.predicate_id_info@.index_of(predicate),
            )
        }),
        after.dormant_variables == before.dormant_variables,
        after.should_synchronise == before.should_synchronise,
        after.best_known_solution == before.best_known_solution,
        after.max_threshold == before.max_threshold,
        after.decay_factor == before.decay_factor,
        before.predicate_id_info@.contains(predicate) ==> after.predicate_id_info@
            == before.predicate_id_info@ && after.statistics.num_predicates_added
            == before.statistics.num_predicates_added,
        !before.predicate_id_info@.contains(predicate) ==> after.predicate_id_info@
            == before.predicate_id_info@.push(predicate),
        !before.predicate_id_info@.contains(predicate) && before.statistics.num_predicates_added
            < usize::MAX ==> after.statistics.num_predicates_added
            == before.statistics.num_predicates_added + 1,
        after.wf(),
        entries_are_named(after),
{
    let ids = before.predicate_id_info@;
    let longer = after.predicate_id_info@;
    let d = predicate.domain.id;
    before.predicate_id_info.lemma_no_duplicates();
    after.predicate_id_info.lemma_no_duplicates();
    assert(longer.contains(predicate)) by {
        if !ids.contains(predicate) {
            assert(longer[ids.len() as int] == predicate);
        }
    }
    let id = longer.index_of(predicate);
    assert(before.id_of(predicate) == id);
    lemma_heap_of(before, d);
    lemma_heap_of(after, d);
    if ids.contains(predicate) {
        assert(ids.index_of(predicate) == id);
    } else {
        assert(longer[ids.len() as int] == predicate);
        assert(id == ids.len());
    }
    let grown = before.predicates_with(predicate);
    let divided = all_divided(grown, before.max_threshold);
    assert(grown.contains_key(d));
    assert(divided.contains_key(d) && divided[d] == grown[d].divided(before.max_threshold));
    assert(0 <= id < grown[d].values.len());
    assert(grown[d].values[id] == activity_of(before, Target::Predicate(predicate)));
    assert forall|e: u32| #[trigger]
        after.predicate_heap@.contains_key(e) implies after.predicate_heap@[e]@.values.len()
        <= longer.len() by {
        lemma_heap_of(before, e);
        lemma_heap_of(after, e);
        if grown.contains_key(e) {
            assert(divided.contains_key(e) && divided[e] == grown[e].divided(
                before.max_threshold,
            ));
        }
    }
    if let Target::Predicate(q) = other {
        let e = q.domain.id;
        lemma_heap_of(before, e);
        lemma_heap_of(after, e);
        if ids.contains(q) {
            let i = ids.index_of(q);
            assert(longer[i] == q);
            assert(longer.index_of(q) == i);
            if grown.contains_key(e) {
                assert(divided.contains_key(e) && divided[e] == grown[e].divided(
                    before.max_threshold,
                ));
            }
        } else if longer.contains(q) {
            let i = longer.index_of(q);
            assert(i == ids.len());
        }
    }
}

proof fn lemma_heap_of<N: OrderedNumber, B>(brancher: VariableVsidBrancher<N, B>, d: u32)
    ensures
        brancher.models().contains_key(d) <==> brancher.predicate_heap@.contains_key(d),
        brancher.predicate_heap@.contains_key(d) ==> brancher.models()[d]
            == brancher.predicate_heap@[d]@,
{
}

/// Only appearances in conflicts change activities, and only a solution changes the solution that
/// is remembered, which becomes that one. A conflict multiplies the increment by one over the
/// decay factor, synchronising has the dormant variables restored before the next decision, and
/// nothing else changes anything but the backup.
pub proof fn lemma_other_notifications<N: OrderedNumber, B: Brancher>(
    before: VariableVsidBrancher<N, B>,
    notification: Notification,
    after: VariableVsidBrancher<N, B>,
)
    requires
        VariableVsidBrancher::reacts(before, notification, after),
        notification !is AppearanceInConflict,
    ensures
        after.predicate_id_info == before.predicate_id_info,
        after.variable_heap == before.variable_heap,
        after.predicate_heap == before.predicate_heap,
        after.dormant_variables == before.dormant_variables,
        after.max_threshold == before.max_threshold,
        after.decay_factor == before.decay_factor,
        after.statistics == before.statistics,
        notification matches Notification::Solution(solution)
            ==> after.best_known_solution matches Some(known) && known@ == solution,
        notification !is Solution ==> after.best_known_solution == before.best_known_solution,
        notification is Conflict ==> after.increment == before.increment.times_spec(
            N::whole_spec(1).over_spec(before.decay_factor),
        ),
        notification !is Conflict ==> after.increment == before.increment,
        notification is Synchronise ==> after.should_synchronise,
        notification !is Synchronise ==> after.should_synchronise == before.should_synchronise,
        before.wf() ==> after.wf(),
{
}

/// The backup is notified of everything but learned nogoods, which change nothing at all; the
/// brancher asks to be notified of what it uses and of what its backup uses; and it never takes a
/// restart for pointless.
pub proof fn lemma_backup_is_notified<N: OrderedNumber, B: Brancher>(
    before: VariableVsidBrancher<N, B>,
    notification: Notification,
    after: VariableVsidBrancher<N, B>,
    event: BrancherEvent,
    answer: bool,
    asked: VariableVsidBrancher<N, B>,
)
    requires
        VariableVsidBrancher::reacts(before, notification, after),
        VariableVsidBrancher::judges_restart(before, answer, asked),
    ensures
        notification !is LearnedNogood ==> B::reacts(
            before.backup_brancher,
            notification,
            after.backup_brancher,
        ),
        notification is LearnedNogood ==> after == before,
        before.events().contains(event) <==> event is Solution || event is Conflict
            || event is Backtrack || event is Synchronise || event is AppearanceInConflictPredicate
            || before.backup_brancher.events().contains(event),
        before.events().len() == 5 + before.backup_brancher.events().len(),
        !answer,
        asked == before,
{
    let others = before.backup_brancher.events();
    let events = before.events();
    assert(events[0] == BrancherEvent::Solution);
    assert(events[1] == BrancherEvent::Conflict);
    assert(events[2] == BrancherEvent::Backtrack);
    assert(events[3] == BrancherEvent::Synchronise);
    assert(events[4] == BrancherEvent::AppearanceInConflictPredicate);
    if others.contains(event) {
        assert(events[5 + others.index_of(event)] == event);
    }
    if events.contains(event) {
        let i = events.index_of(event);
        if i >= 5 {
            assert(others[i - 5] == event);
        }
    }
}

/// A new brancher has no activities and knows no solution; it adds one at first, divides by ten
/// to the power of a hundred once that is reached, and has a decay factor of 0.95.
pub proof fn lemma_new_brancher<N: OrderedNumber, B>(brancher: VariableVsidBrancher<N, B>)
    requires
        brancher.is_new(),
    ensures
        brancher.predicate_id_info@.len() == 0,
        brancher.variable_heap@.values.len() == 0,
        brancher.variable_heap@.present.is_empty(),
        forall|d: u32| !(#[trigger] brancher.predicate_heap@.contains_key(d)),
        brancher.dormant_variables@.len() == 0,
        brancher.increment == N::whole_spec(1),
        brancher.max_threshold == N::decimal_spec(1, 100),
        brancher.decay_factor == N::decimal_spec(95, (-2) as i32),
        brancher.best_known_solution is None,
        !brancher.should_synchronise,
        brancher.statistics.num_calls == 0,
        brancher.statistics.num_predicates_added == 0,
        brancher.statistics.num_predicates_removed == 0,
        brancher.statistics.num_backup_called == 0,
        brancher.statistics.num_assigned_predicates_encountered == 0,
        brancher.statistics.average_size_of_heap.sum == 0,
        brancher.statistics.average_size_of_heap.num_terms == 0,
{
    assert forall|d: u32| !(#[trigger] brancher.predicate_heap@.contains_key(d)) by {
        lemma_heap_of(brancher, d);
    }
}

/// The solution of the latest of the first `n` calls that brought one.
pub open spec fn latest_solution(calls: Seq<BrancherCall>, n: int) -> Option<AssignmentsModel>
    decreases n,
{
    if n <= 0 {
        None
    } else {
        match calls[n - 1] {
            BrancherCall::Notify(Notification::Solution(solution)) => Some(solution),
            _ => latest_solution(calls, n - 1),
        }
    }
}

/// After any calls on a new brancher, the solution that it remembers is the latest one that it was
/// notified of, and it remembers none if there was none.
pub proof fn lemma_remembers_latest_solution<N: OrderedNumber, B: Brancher>(
    states: Seq<VariableVsidBrancher<N, B>>,
    calls: Seq<BrancherCall>,
    n: int,
)
    requires
        is_course(states, calls),
        states[0].is_new(),
        0 <= n <= calls.len(),
    ensures
        match states[n].best_known_solution {
            Some(known) => latest_solution(calls, n) == Some(known@),
            None => latest_solution(calls, n) is None,
        },
    decreases n,
{
    if n > 0 {
        let before = states[n - 1];
        let after = states[n];
        lemma_remembers_latest_solution(states, calls, n - 1);
        match calls[n - 1] {
            BrancherCall::Notify(notification) => {
                assert(VariableVsidBrancher::reacts(before, notification, after));
                if notification !is AppearanceInConflict {
                    lemma_other_notifications(before, notification, after);
                }
            },
            BrancherCall::Decide(assignments, decision) => {
                assert(VariableVsidBrancher::decides(before, assignments, decision, after));
            },
        }
    }
}

/// What the activity of the target has come to after the first `n` calls: every appearance of the
/// predicate, or of a predicate on the variable, adds the increment of the time, and whenever an
/// appearance would lift a predicate or its variable to the threshold, everything is divided by
/// the threshold first.
pub open spec fn gathered<N: OrderedNumber, B>(
    states: Seq<VariableVsidBrancher<N, B>>,
    calls: Seq<BrancherCall>,
    n: int,
    target: Target,
) -> N
    decreases n,
{
    if n <= 0 {
        N::whole_spec(0)
    } else {
        let earlier = gathered(states, calls, n - 1, target);
        let increment = states[n - 1].increment;
        let threshold = states[0].max_threshold;
        match calls[n - 1] {
            BrancherCall::Notify(Notification::AppearanceInConflict(predicate)) => {
                let variable = Target::Variable(predicate.domain.id as int);
                let itself = Target::Predicate(predicate);
                let appears = target == variable || target == itself;
                let fits = gathered(states, calls, n - 1, variable).plus_spec(increment).less_spec(
                    threshold,
                ) && gathered(states, calls, n - 1, itself).plus_spec(increment).less_spec(
                    threshold,
                );
                if fits {
                    if appears {
                        earlier.plus_spec(increment)
                    } else {
                        earlier
                    }
                } else if appears {
                    earlier.over_spec(threshold).plus_spec(increment.over_spec(threshold))
                } else {
                    earlier.over_spec(threshold)
                }
            },
            _ => earlier,
        }
    }
}

/// After any calls on a new brancher, the activity of every predicate is what its appearances in
/// conflicts have come to, and the activity of every variable what the appearances of all
/// predicates on it have come to.
pub proof fn lemma_activities_count_appearances<N: OrderedNumber, B: Brancher>(
    states: Seq<VariableVsidBrancher<N, B>>,
    calls: Seq<BrancherCall>,
    n: int,
    target: Target,
)
    requires
        is_course(states, calls),
        states[0].is_new(),
        0 <= n <= calls.len(),
        N::whole_spec(0).over_spec(states[0].max_threshold) == N::whole_spec(0),
    ensures
        activity_of(states[n], target) == gathered(states, calls, n, target),
        states[n].max_threshold == states[0].max_threshold,
        states[n].wf(),
        entries_are_named(states[n]),
    decreases n,
{
    if n == 0 {
        lemma_new_brancher(states[0]);
    } else {
        let before = states[n - 1];
        let after = states[n];
        lemma_activities_count_appearances(states, calls, n - 1, target);
        match calls[n - 1] {
            BrancherCall::Notify(notification) => {
                assert(VariableVsidBrancher::reacts(before, notification, after));
                if let Notification::AppearanceInConflict(predicate) = notification {
                    let variable = Target::Variable(predicate.domain.id as int);
                    let itself = Target::Predicate(predicate);
                    lemma_activities_count_appearances(states, calls, n - 1, variable);
                    lemma_activities_count_appearances(states, calls, n - 1, itself);
                    lemma_appearance_raises_activity(before, predicate, after, target);
                } else {
                    lemma_other_notifications(before, notification, after);
                }
            },
            BrancherCall::Decide(assignments, decision) => {
                assert(VariableVsidBrancher::decides(before, assignments, decision, after));
                lemma_deciding_keeps_activities(before, assignments, decision, after, target);
                assert forall|d: u32| #[trigger]
                    after.predicate_heap@.contains_key(
                        d,
                    ) implies after.predicate_heap@[d]@.values.len()
                    <= after.predicate_id_info@.len() by {
                    lemma_searched_heap(before, d);
                    lemma_heap_of(after, d);
                    let start = before.state_to_search();
                    assert(after.models().dom() == start.predicates.dom());
                    assert(start.predicates.dom().contains(d));
                    assert(start.predicates.contains_key(d));
                }
            },
        }
    }
}

/// Deciding changes no activity, no parameter and no solution, and gives no predicate an
/// identifier.
pub proof fn lemma_deciding_keeps_activities<N: OrderedNumber, B: Brancher>(
    before: VariableVsidBrancher<N, B>,
    assignments: AssignmentsModel,
    decision: Option<Predicate>,
    after: VariableVsidBrancher<N, B>,
    target: Target,
)
    requires
        before.wf(),
        VariableVsidBrancher::decides(before, assignments, decision, after),
    ensures
        activity_of(after, target) == activity_of(before, target),
        has_activity(after, target) == has_activity(before, target),
        after.predicate_id_info == before.predicate_id_info,
        after.increment == before.increment,
        after.max_threshold == before.max_threshold,
        after.decay_factor == before.decay_factor,
        after.best_known_solution == before.best_known_solution,
        !after.should_synchronise,
{
    if let Target::Predicate(predicate) = target {
        lemma_searched_heap(before, predicate.domain.id);
        lemma_heap_of(after, predicate.domain.id);
        let start = before.state_to_search();
        assert(after.models().dom() == start.predicates.dom());
        assert(after.models().contains_key(predicate.domain.id)
            == start.predicates.contains_key(predicate.domain.id));
    }
}

/// Whether the variable at position `k` is searched for a decision: it has an activity and is in
/// the heap, or is put back into it because the solver has synchronised.
pub open spec fn is_searched<N: OrderedNumber, B>(
    brancher: VariableVsidBrancher<N, B>,
    k: int,
) -> bool {
    &&& 0 <= k < brancher.variable_heap@.values.len()
    &&& brancher.variable_heap@.present.contains(k) || brancher.should_synchronise
}

/// Whether the predicate comes into question when its variable is searched: it has an activity
/// and is in the heap, or is put back into it because the solver has synchronised and its variable
/// was dormant.
pub open spec fn is_up<N: OrderedNumber, B>(
    brancher: VariableVsidBrancher<N, B>,
    predicate: Predicate,
) -> bool {
    &&& has_activity(brancher, Target::Predicate(predicate))
    &&& brancher.predicate_heap@[predicate.domain.id]@.present.contains(
        brancher.predicate_id_info@.index_of(predicate),
    ) || brancher.should_synchronise && exists|i: int|
        0 <= i < brancher.dormant_variables@.len() && #[trigger] brancher.dormant_variables@[i]
            == predicate.domain
}

/// Whether the brancher can decide on the predicate.
pub open spec fn is_eligible<N: OrderedNumber, B>(
    brancher: VariableVsidBrancher<N, B>,
    assignments: AssignmentsModel,
    predicate: Predicate,
) -> bool {
    &&& is_searched(brancher, predicate.domain.id as int)
    &&& is_up(brancher, predicate)
    &&& is_undecided(assignments, predicate)
}

proof fn lemma_searched<N: OrderedNumber, B>(brancher: VariableVsidBrancher<N, B>, k: int)
    requires
        brancher.wf(),
    ensures
        brancher.state_to_search().variables.present.contains(k) <==> is_searched(brancher, k),
        brancher.state_to_search().variables.values == brancher.variable_heap@.values,
{
    brancher.variable_heap.lemma_view();
    if brancher.should_synchronise {
        lemma_synchronising_wakes_all(brancher);
    }
}

proof fn lemma_searched_heap<N: OrderedNumber, B>(brancher: VariableVsidBrancher<N, B>, d: u32)
    requires
        brancher.wf(),
    ensures
        brancher.state_to_search().predicates.contains_key(d)
            <==> brancher.predicate_heap@.contains_key(d),
        brancher.predicate_heap@.contains_key(d) ==> {
            let heap = brancher.predicate_heap@[d]@;
            let searched = brancher.state_to_search().predicates[d];
            &&& searched.values == heap.values
            &&& heap.wf()
            &&& forall|i: int| #[trigger]
                searched.present.contains(i) <==> 0 <= i < heap.values.len() && (
                heap.present.contains(i) || brancher.should_synchronise && identifiers(
                    brancher.dormant_variables@,
                ).contains(d as int))
        },
{
    lemma_heap_of(brancher, d);
    if brancher.predicate_heap@.contains_key(d) {
        brancher.predicate_heap@[d].lemma_view();
    }
}

proof fn lemma_up<N: OrderedNumber, B>(
    brancher: VariableVsidBrancher<N, B>,
    predicate: Predicate,
    id: int,
)
    requires
        brancher.wf(),
        predicate_of(brancher.predicate_id_info@, id) == Some(predicate),
    ensures
        brancher.predicate_id_info@.index_of(predicate) == id,
        is_up(brancher, predicate) <==> brancher.state_to_search().predicates.contains_key(
            predicate.domain.id,
        ) && brancher.state_to_search().predicates[predicate.domain.id].present.contains(id),
{
    let d = predicate.domain.id;
    let dormant = brancher.dormant_variables@;
    brancher.predicate_id_info.lemma_no_duplicates();
    assert(brancher.predicate_id_info@[id] == predicate);
    lemma_searched_heap(brancher, d);
    if identifiers(dormant).contains(d as int) {
        let i = identifiers(dormant).index_of(d as int);
        assert(dormant[i] == predicate.domain);
    }
    if exists|i: int| 0 <= i < dormant.len() && #[trigger] dormant[i] == predicate.domain {
        let i = choose|i: int| 0 <= i < dormant.len() && #[trigger] dormant[i] == predicate.domain;
        assert(identifiers(dormant)[i] == d as int);
    }
}

/// If the brancher can decide on some predicate, it does so: on one whose variable is no less
/// active than that of any other such predicate, and which is no less active than any other such
/// predicate on its variable. It makes the predicate true unless the solution that it remembers
/// knows the variable and does not make the predicate true; then it makes the predicate false.
pub proof fn lemma_decides_on_most_active<N: OrderedNumber, B: Brancher>(
    before: VariableVsidBrancher<N, B>,
    assignments: AssignmentsModel,
    decision: Option<Predicate>,
    after: VariableVsidBrancher<N, B>,
    some: Predicate,
) -> (chosen: Predicate)
    requires
        domains_wf(assignments),
        before.can_decide(assignments),
        VariableVsidBrancher::decides(before, assignments, decision, after),
        is_eligible(before, assignments, some),
    ensures
        is_eligible(before, assignments, chosen),
        forall|other: Predicate| #[trigger]
            is_eligible(before, assignments, other) ==> !activity_of(
                before,
                Target::Variable(chosen.domain.id as int),
            ).less_spec(activity_of(before, Target::Variable(other.domain.id as int))),
        forall|other: Predicate| #[trigger]
            is_eligible(before, assignments, other) && other.domain == chosen.domain
                ==> !activity_of(before, Target::Predicate(chosen)).less_spec(
                activity_of(before, Target::Predicate(other)),
            ),
        decision is Some,
        ({
            let predicate = decision->0;
            let agrees = match before.best_known_solution {
                Some(known) => chosen.domain.id < known@.len() ==> forall|v: int| #[trigger]
                    known@[chosen.domain.id as int].has(v) ==> chosen.holds(v),
                None => true,
            };
            &&& predicate.domain == chosen.domain
            &&& agrees ==> predicate == chosen
            &&& !agrees ==> forall|v: int| #[trigger] predicate.holds(v) <==> !chosen.holds(v)
        }),
        after.backup_brancher == before.backup_brancher,
        after.statistics.num_backup_called == before.statistics.num_backup_called,
{
    let ids = before.predicate_id_info@;
    let start = before.state_to_search();
    let candidate = lemma_candidate(before, assignments, decision, after);
    let passed = after.state().dormant.skip(start.dormant.len() as int);
    after.variable_heap.lemma_view();
    assert forall|other: Predicate| #[trigger]
        is_eligible(before, assignments, other) implies after.variable_heap@.present.contains(
        other.domain.id as int,
    ) by {
        lemma_eligible_stays(before, assignments, candidate, after, other);
    }
    assert(after.variable_heap@.present.contains(some.domain.id as int));
    assert(candidate is Some);
    let chosen = candidate->0;
    let d = chosen.domain.id;
    let id = choose|id: int| #[trigger]
        after.models()[d].is_max(id) && predicate_of(ids, id) == Some(chosen);
    let taken = choose|taken: Seq<int>| #[trigger]
        useless_taken_out(ids, assignments, d, start.predicates[d], taken, after.models()[d]);
    lemma_up(before, chosen, id);
    lemma_searched(before, d as int);
    lemma_undecided(assignments, chosen);
    lemma_searched_heap(before, d);
    lemma_polarity_is_undecided(assignments, before.solution(), chosen);
    assert forall|other: Predicate| #[trigger]
        is_eligible(before, assignments, other) && other.domain
            == chosen.domain implies !activity_of(before, Target::Predicate(chosen)).less_spec(activity_of(before, Target::Predicate(other))) by {
        let i = ids.index_of(other);
        lemma_up(before, other, i);
        lemma_undecided(assignments, other);
        if !after.models()[d].present.contains(i) {
            let t = taken.index_of(i);
            assert(is_useless(ids, assignments, d, taken[t]));
        }
    }
    lemma_polarity(before.solution(), chosen, assignments);
    chosen
}

proof fn lemma_polarity(
    solution: Option<AssignmentsModel>,
    predicate: Predicate,
    assignments: AssignmentsModel,
)
    requires
        domains_wf(assignments),
        knows(assignments, predicate.domain),
        is_undecided(assignments, predicate),
    ensures
        ({
            let agrees = match solution {
                Some(values) => predicate.domain.id < values.len() ==> forall|v: int| #[trigger]
                    values[predicate.domain.id as int].has(v) ==> predicate.holds(v),
                None => true,
            };
            &&& agrees ==> polarity(solution, predicate) == predicate
            &&& !agrees ==> forall|v: int| #[trigger]
                polarity(solution, predicate).holds(v) <==> !predicate.holds(v)
        }),
{
    let domain = assignments[predicate.domain.id as int];
    assert(domain.wf());
    let yes = choose|v: int| #[trigger] domain.has(v) && predicate.holds(v);
    let no = choose|v: int| #[trigger] domain.has(v) && !predicate.holds(v);
    assert(domain.has(yes) && domain.has(no));
    assert forall|v: int| #[trigger] predicate.negation().holds(v) <==> !predicate.holds(v) by {
    }
}

proof fn lemma_candidate<N: OrderedNumber, B: Brancher>(
    before: VariableVsidBrancher<N, B>,
    assignments: AssignmentsModel,
    decision: Option<Predicate>,
    after: VariableVsidBrancher<N, B>,
) -> (candidate: Option<Predicate>)
    requires
        before.can_decide(assignments),
        VariableVsidBrancher::decides(before, assignments, decision, after),
    ensures
        searches(
            before.predicate_id_info@,
            assignments,
            before.state_to_search(),
            candidate,
            after.state(),
        ),
        candidate matches Some(predicate) ==> {
            &&& decision == Some(polarity(before.solution(), predicate))
            &&& after.backup_brancher == before.backup_brancher
        },
        candidate is None && all_fixed(assignments) ==> {
            &&& decision is None
            &&& after.backup_brancher == before.backup_brancher
        },
        candidate is None && !all_fixed(assignments) ==> B::decides(
            before.backup_brancher,
            assignments,
            decision,
            after.backup_brancher,
        ),
        after.statistics.num_backup_called == before.statistics.num_backup_called + if candidate
            is None && !all_fixed(assignments) {
            1int
        } else {
            0int
        },
        ({
            let start = before.state_to_search();
            let settled = settled_entries(
                before.predicate_id_info@,
                assignments,
                start.predicates,
                after.models(),
            ).len();
            let counted = before.statistics.with_decision(start.variables.present.len(), settled);
            after.statistics == counted || after.statistics == counted.with_backup()
        }),
{
    let ids = before.predicate_id_info@;
    let start = before.state_to_search();
    let counted = before.statistics.with_decision(
        start.variables.present.len(),
        settled_entries(ids, assignments, start.predicates, after.models()).len(),
    );
    choose|candidate: Option<Predicate>|
        {
            &&& #[trigger] searches(ids, assignments, start, candidate, after.state())
            &&& match candidate {
                Some(predicate) => {
                    &&& decision == Some(polarity(before.solution(), predicate))
                    &&& after.backup_brancher == before.backup_brancher
                    &&& after.statistics == counted
                },
                None => if all_fixed(assignments) {
                    &&& decision is None
                    &&& after.backup_brancher == before.backup_brancher
                    &&& after.statistics == counted
                } else {
                    &&& B::decides(
                        before.backup_brancher,
                        assignments,
                        decision,
                        after.backup_brancher,
                    )
                    &&& after.statistics == counted.with_backup()
                },
            }
        }
}

/// The variable of a predicate that can be decided on is not put to sleep, and the predicate is
/// not taken out.
proof fn lemma_eligible_stays<N: OrderedNumber, B: Brancher>(
    before: VariableVsidBrancher<N, B>,
    assignments: AssignmentsModel,
    candidate: Option<Predicate>,
    after: VariableVsidBrancher<N, B>,
    predicate: Predicate,
)
    requires
        domains_wf(assignments),
        before.can_decide(assignments),
        searches(
            before.predicate_id_info@,
            assignments,
            before.state_to_search(),
            candidate,
            after.state(),
        ),
        is_eligible(before, assignments, predicate),
    ensures
        after.variable_heap@.present.contains(predicate.domain.id as int),
{
    let ids = before.predicate_id_info@;
    let start = before.state_to_search();
    let d = predicate.domain.id;
    let passed = after.state().dormant.skip(start.dormant.len() as int);
    lemma_searched(before, d as int);
    lemma_undecided(assignments, predicate);
    let id = ids.index_of(predicate);
    lemma_up(before, predicate, id);
    if !after.variable_heap@.present.contains(d as int) {
        assert(identifiers(passed).contains(d as int));
        let i = identifiers(passed).index_of(d as int);
        assert(passed[i] == predicate.domain);
        assert(is_fixed(assignments, passed[i])
            || has_nothing_useful(
            ids,
            assignments,
            start.predicates,
            passed[i].id,
        ));
        assert(start.predicates[d].present.contains(id));
        assert(is_useless(ids, assignments, d, id));
    }
}

/// If the brancher cannot decide on any predicate, there is no decision if every variable has one
/// value left, and otherwise the backup decides, which is counted.
pub proof fn lemma_backup_decides<N: OrderedNumber, B: Brancher>(
    before: VariableVsidBrancher<N, B>,
    assignments: AssignmentsModel,
    decision: Option<Predicate>,
    after: VariableVsidBrancher<N, B>,
)
    requires
        domains_wf(assignments),
        before.can_decide(assignments),
        VariableVsidBrancher::decides(before, assignments, decision, after),
        forall|predicate: Predicate| !(#[trigger] is_eligible(before, assignments, predicate)),
    ensures
        if forall|i: int|
            0 <= i < assignments.len() ==> (#[trigger] assignments[i]).lower
                == assignments[i].upper {
            &&& decision is None
            &&& after.backup_brancher == before.backup_brancher
            &&& after.statistics.num_backup_called == before.statistics.num_backup_called
        } else {
            &&& B::decides(
                before.backup_brancher,
                assignments,
                decision,
                after.backup_brancher,
            )
            &&& after.statistics.num_backup_called == before.statistics.num_backup_called + 1
        },
{
    let ids = before.predicate_id_info@;
    let candidate = lemma_candidate(before, assignments, decision, after);
    let start = before.state_to_search();
    after.variable_heap.lemma_view();
    if let Some(chosen) = candidate {
        let d = chosen.domain.id;
        let id = choose|id: int| #[trigger]
            after.models()[d].is_max(id) && predicate_of(ids, id) == Some(chosen);
        let taken = choose|taken: Seq<int>| #[trigger]
            useless_taken_out(ids, assignments, d, start.predicates[d], taken, after.models()[d]);
        lemma_up(before, chosen, id);
        lemma_searched(before, d as int);
        lemma_undecided(assignments, chosen);
        assert(is_eligible(before, assignments, chosen));
    }
    if all_fixed(assignments) {
        assert forall|i: int| 0 <= i < assignments.len() implies (#[trigger] assignments[i]).lower
            == assignments[i].upper by {
            assert(assignments[i].is_fixed());
        }
    }
}

/// After any calls on a new brancher, a decision on one of its own predicates is true under the
/// value that the latest solution gives to the variable, if that solution knows it, and is the
/// predicate that appeared in conflicts if there was no solution.
pub proof fn lemma_decision_follows_latest_solution<N: OrderedNumber, B: Brancher>(
    states: Seq<VariableVsidBrancher<N, B>>,
    calls: Seq<BrancherCall>,
    assignments: AssignmentsModel,
    decision: Option<Predicate>,
    after: VariableVsidBrancher<N, B>,
    some: Predicate,
)
    requires
        is_course(states, calls),
        states[0].is_new(),
        domains_wf(assignments),
        states[calls.len() as int].can_decide(assignments),
        VariableVsidBrancher::decides(
            states[calls.len() as int],
            assignments,
            decision,
            after,
        ),
        is_eligible(states[calls.len() as int], assignments, some),
    ensures
        decision is Some,
        latest_solution(calls, calls.len() as int) matches Some(solution)
            ==> decision->0.domain.id < solution.len() ==> {
            let domain = solution[decision->0.domain.id as int];
            domain.lower == domain.upper && domain.has(domain.lower) ==> decision->0.holds(
                domain.lower,
            )
        },
        latest_solution(calls, calls.len() as int) is None ==> is_eligible(
            states[calls.len() as int],
            assignments,
            decision->0,
        ),
{
    let before = states[calls.len() as int];
    lemma_remembers_latest_solution(states, calls, calls.len() as int);
    let chosen = lemma_decides_on_most_active(before, assignments, decision, after, some);
    if let Some(solution) = latest_solution(calls, calls.len() as int) {
        if chosen.domain.id < solution.len() {
            let domain = solution[chosen.domain.id as int];
            if domain.lower == domain.upper && domain.has(domain.lower) {
                if forall|v: int| #[trigger] domain.has(v) ==> chosen.holds(v) {
                    assert(chosen.holds(domain.lower));
                } else {
                    let v = choose|v: int| #[trigger] domain.has(v) && !chosen.holds(v);
                    assert(v == domain.lower);
                    assert(decision->0.holds(v));
                }
            }
        }
    }
}

/// Variables are put to sleep only if they have one value left or none of their predicates can be
/// decided on, and predicates are taken out only if they are decided already. Sleeping variables
/// stay asleep until the solver has synchronised, which wakes all of them, and no variable with an
/// activity is ever lost.
pub proof fn lemma_sleeps_until_synchronised<N: OrderedNumber, B: Brancher>(
    before: VariableVsidBrancher<N, B>,
    assignments: AssignmentsModel,
    decision: Option<Predicate>,
    after: VariableVsidBrancher<N, B>,
    k: int,
    predicate: Predicate,
)
    requires
        domains_wf(assignments),
        before.can_decide(assignments),
        VariableVsidBrancher::decides(before, assignments, decision, after),
    ensures
        after.variable_heap@.present.contains(k) ==> is_searched(before, k),
        is_searched(before, k) && !after.variable_heap@.present.contains(k)
            ==> assignments[k].lower == assignments[k].upper || !(predicate.domain.id == k && is_up(
            before,
            predicate,
        ) && is_undecided(assignments, predicate)),
        is_searched(before, k) && !after.variable_heap@.present.contains(k) ==> forall|j: int|
            #[trigger] after.variable_heap@.present.contains(j)
                ==> !before.variable_heap@.values[k].less_spec(before.variable_heap@.values[j]),
        0 <= k < after.variable_heap@.values.len() && !after.variable_heap@.present.contains(k)
            ==> exists|i: int|
            0 <= i < after.dormant_variables@.len() && (#[trigger] after.dormant_variables@[i]).id
                == k,
        !before.should_synchronise ==> before.dormant_variables@.is_prefix_of(
            after.dormant_variables@,
        ),
        forall|i: int|
            0 <= i < after.dormant_variables@.len() && (before.should_synchronise || i
                >= before.dormant_variables@.len()) ==> is_searched(
                before,
                (#[trigger] after.dormant_variables@[i]).id as int,
            ) && !after.variable_heap@.present.contains(after.dormant_variables@[i].id as int),
        is_up(after, predicate) ==> is_up(before, predicate),
        is_up(before, predicate) && !is_up(after, predicate) && knows(
            assignments,
            predicate.domain,
        ) ==> !is_undecided(assignments, predicate),
{
    let ids = before.predicate_id_info@;
    let start = before.state_to_search();
    let candidate = lemma_candidate(before, assignments, decision, after);
    let passed = after.state().dormant.skip(start.dormant.len() as int);
    after.variable_heap.lemma_view();
    lemma_searched(before, k);
    if is_searched(before, k) && !after.variable_heap@.present.contains(k) {
        if predicate.domain.id == k && is_up(before, predicate) && is_undecided(
            assignments,
            predicate,
        ) {
            lemma_eligible_stays(before, assignments, candidate, after, predicate);
        }
        assert(identifiers(passed).contains(k));
        let t = identifiers(passed).index_of(k);
        assert(identifiers(passed)[t] == k);
    }
    if 0 <= k < after.variable_heap@.values.len() && !after.variable_heap@.present.contains(k) {
        assert(identifiers(after.dormant_variables@).contains(k));
        let i = identifiers(after.dormant_variables@).index_of(k);
        assert(after.dormant_variables@[i].id == k);
    }
    assert forall|i: int|
        0 <= i < after.dormant_variables@.len() && i >= start.dormant.len() implies is_searched(
        before,
        (#[trigger] after.dormant_variables@[i]).id as int,
    ) && !after.variable_heap@.present.contains(after.dormant_variables@[i].id as int) by {
        let j = i - start.dormant.len();
        assert(passed[j] == after.dormant_variables@[i]);
        assert(identifiers(passed)[j] == passed[j].id);
        assert(start.variables.present.contains(identifiers(passed)[j]));
        lemma_searched(before, passed[j].id as int);
    }
    lemma_deciding_keeps_activities(
        before,
        assignments,
        decision,
        after,
        Target::Predicate(predicate),
    );
    if ids.contains(predicate) {
        let d = predicate.domain.id;
        let id = ids.index_of(predicate);
        lemma_up(before, predicate, id);
        lemma_up(after, predicate, id);
        lemma_searched_heap(before, d);
        lemma_searched_heap(after, d);
        lemma_heap_of(after, d);
        assert(after.models().dom() == start.predicates.dom());
        assert(after.models().contains_key(d) == start.predicates.contains_key(d));
        if is_up(before, predicate) && !is_up(after, predicate) && knows(
            assignments,
            predicate.domain,
        ) {
            lemma_undecided(assignments, predicate);
            if identifiers(passed).contains(d as int) && !is_fixed(assignments, predicate.domain) {
                let i = identifiers(passed).index_of(d as int);
                assert(passed[i] == predicate.domain);
                assert(is_fixed(assignments, passed[i])
                    || has_nothing_useful(
                    ids,
                    assignments,
                    start.predicates,
                    passed[i].id,
                ));
                assert(is_useless(ids, assignments, d, id));
            } else if candidate is Some && candidate->0.domain.id == d {
                let taken = choose|taken: Seq<int>| #[trigger]
                    useless_taken_out(
                        ids,
                        assignments,
                        d,
                        start.predicates[d],
                        taken,
                        after.models()[d],
                    );
                let t = taken.index_of(id);
                assert(is_useless(ids, assignments, d, taken[t]));
            } else {
                assert(after.models()[d] == start.predicates[d]);
            }
        }
    }
}

/// Every decision that is asked for is counted, together with the number of variables that are
/// searched and the number of predicates that are taken out because they are decided already.
pub proof fn lemma_decisions_are_counted<N: OrderedNumber, B: Brancher>(
    before: VariableVsidBrancher<N, B>,
    assignments: AssignmentsModel,
    decision: Option<Predicate>,
    after: VariableVsidBrancher<N, B>,
)
    requires
        domains_wf(assignments),
        before.can_decide(assignments),
        VariableVsidBrancher::decides(before, assignments, decision, after),
    ensures
        after.statistics.num_assigned_predicates_encountered
            == before.statistics.num_assigned_predicates_encountered + Set::new(
            |predicate: Predicate| is_up(before, predicate) && !is_up(after, predicate),
        ).len(),
        after.statistics.num_calls == before.statistics.num_calls + 1,
        after.statistics.average_size_of_heap.sum == before.statistics.average_size_of_heap.sum
            + if before.should_synchronise {
            before.variable_heap@.values.len()
        } else {
            before.variable_heap@.present.len()
        },
        after.statistics.average_size_of_heap.num_terms
            == before.statistics.average_size_of_heap.num_terms + 1,
        after.statistics.num_predicates_added == before.statistics.num_predicates_added,
        after.statistics.num_predicates_removed == before.statistics.num_predicates_removed,
{
    let candidate = lemma_candidate(before, assignments, decision, after);
    before.variable_heap.lemma_view();
    lemma_present_at_most_values(before.variable_heap@);
    if before.should_synchronise {
        lemma_synchronising_wakes_all(before);
        let full = before.variable_heap@.full().present;
        let length = before.variable_heap@.values.len() as int;
        vstd::set_lib::lemma_int_range(0, length);
        assert(full =~= vstd::set_lib::set_int_range(0, length));
    }
    let ids = before.predicate_id_info@;
    let start = before.state_to_search();
    let settled = settled_entries(ids, assignments, start.predicates, after.models());
    let predicates = Set::new(
        |predicate: Predicate| is_up(before, predicate) && !is_up(after, predicate),
    );
    let named = |entry: (u32, int)| ids[entry.1];
    assert(entries(start.predicates) =~= entries(before.models()));
    assert forall|d: u32| #[trigger] before.models().contains_key(d) implies before.models()[d].wf()
        && before.models()[d].values.len() <= 0x1_0000_0000 by {
        lemma_heap_of(before, d);
        before.predicate_heap@[d].lemma_view();
    }
    lemma_entries_finite(before.models());
    assert forall|entry: (u32, int)| #[trigger] settled.contains(entry) implies entries(
        start.predicates,
    ).contains(entry) && predicates.contains(named(entry)) by {
        lemma_settled(before, assignments, decision, after, entry);
    }
    vstd::set_lib::lemma_set_subset_finite(entries(start.predicates), settled);
    vstd::set_lib::lemma_len_subset(settled, entries(start.predicates));
    before.predicate_id_info.lemma_no_duplicates();
    assert(settled.map(named) =~= predicates) by {
        assert forall|predicate: Predicate| #[trigger]
            predicates.contains(predicate) implies settled.map(named).contains(predicate) by {
            let d = predicate.domain.id;
            let id = ids.index_of(predicate);
            lemma_sleeps_until_synchronised(
                before,
                assignments,
                decision,
                after,
                d as int,
                predicate,
            );
            lemma_up(before, predicate, id);
            lemma_up(after, predicate, id);
            lemma_searched_heap(before, d);
            lemma_searched_heap(after, d);
            lemma_heap_of(after, d);
            lemma_undecided(assignments, predicate);
            assert(after.models().dom() == start.predicates.dom());
            assert(after.models().contains_key(d) == start.predicates.contains_key(d));
            assert(settled.contains((d, id)));
            assert(named((d, id)) == predicate);
        }
    }
    vstd::set_lib::lemma_map_size(settled, predicates, named);
}

proof fn lemma_settled<N: OrderedNumber, B: Brancher>(
    before: VariableVsidBrancher<N, B>,
    assignments: AssignmentsModel,
    decision: Option<Predicate>,
    after: VariableVsidBrancher<N, B>,
    entry: (u32, int),
)
    requires
        before.can_decide(assignments),
        VariableVsidBrancher::decides(before, assignments, decision, after),
        settled_entries(
            before.predicate_id_info@,
            assignments,
            before.state_to_search().predicates,
            after.models(),
        ).contains(entry),
    ensures
        entries(before.state_to_search().predicates).contains(entry),
        ({
            let predicate = before.predicate_id_info@[entry.1];
            &&& 0 <= entry.1 < before.predicate_id_info@.len()
            &&& predicate.domain.id == entry.0
            &&& is_up(before, predicate)
            &&& !is_up(after, predicate)
        }),
{
    let predicate = before.predicate_id_info@[entry.1];
    let start = before.state_to_search();
    lemma_up(before, predicate, entry.1);
    lemma_up(after, predicate, entry.1);
    lemma_searched_heap(before, entry.0);
    lemma_searched_heap(after, entry.0);
    lemma_heap_of(after, entry.0);
    assert(after.models().dom() == start.predicates.dom());
    assert(after.models().contains_key(entry.0) == start.predicates.contains_key(entry.0));
}

/// The brancher logs what it has counted, under a name of its own.
pub proof fn lemma_logs<N: OrderedNumber, B: Brancher>(
    brancher: VariableVsidBrancher<N, B>,
    prefix: Seq<&'static str>,
)
    ensures
        brancher.logged(prefix).len() == 1,
        brancher.logged(prefix)[0].0.len() == prefix.len() + 1,
        brancher.logged(prefix)[0].0.drop_last() == prefix,
        brancher.logged(prefix)[0].0.last() == "AutonomousSearch",
        brancher.logged(prefix)[0].1 == brancher.statistics,
{
}

/// A brancher whose backup was made for all variables has no decision exactly if every variable
/// has one value left, and its backup assigns the variables in the order of their creation.
pub proof fn lemma_default_decides_until_all_fixed<N: OrderedNumber>(
    before: DefaultBrancher<N>,
    assignments: AssignmentsModel,
    decision: Option<Predicate>,
    after: DefaultBrancher<N>,
    i: int,
)
    requires
        assignments.len() <= 0x1_0000_0000,
        before.is_backed_over(assignments),
        before.can_decide(assignments),
        DefaultBrancher::decides(before, assignments, decision, after),
        0 <= i < assignments.len(),
    ensures
        before.backup_brancher.variable_selector.variables@.len() == assignments.len(),
        before.backup_brancher.variable_selector.variables@[i].id == i,
        decision is None <==> forall|j: int|
            0 <= j < assignments.len() ==> (#[trigger] assignments[j]).lower
                == assignments[j].upper,
{
    let variables = before.backup_brancher.variable_selector.variables@;
    assert forall|j: int| 0 <= j < assignments.len() implies variables.contains(
        #[trigger] domain_id(j),
    ) by {
        assert(variables[j] == domain_id(j));
    }
    lemma_decides_until_all_fixed(before, assignments, decision, after);
    assert(all_fixed(assignments) <==> forall|j: int|
        0 <= j < assignments.len() ==> (#[trigger] assignments[j]).lower
            == assignments[j].upper) by {
        if all_fixed(assignments) {
            assert forall|j: int| 0 <= j < assignments.len() implies (
            #[trigger] assignments[j]).lower == assignments[j].upper by {
                assert(assignments[j].is_fixed());
            }
        }
    }
}

} // verus!
