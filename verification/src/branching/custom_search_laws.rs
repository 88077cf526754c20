//! What notifications and decisions do to a brancher that follows learned nogoods.

use crate::assignments::{
    domain_of, domains_wf, is_undecided, knows, lemma_undecided, AssignmentsModel,
};
use crate::branching::brancher::{Brancher, BrancherEvent, Notification};
use crate::branching::custom_search::{
    activity_at, can_learn, can_learn_all, choice, greatest_open_score, greatest_score, has_open,
    is_learning_history, is_open, last_passed, lemma_best_open_exists, lemma_best_score_exists,
    lemma_choice_exists, lemma_heap_holds_best_scores, preferred, Activities, CustomSearch,
};
use crate::containers::key_value_heap::HeapModel;
use crate::number::OrderedNumber;
use crate::predicates::{Predicate, PredicateType};
use crate::variables::{domain_id, DomainId};
use vstd::prelude::*;

verus! {

/// How active it is for the variable at position `x` to be at least `v`, which is zero as long as
/// no nogood has spoken of it.
pub open spec fn lower_activity<N: OrderedNumber, B>(
    brancher: CustomSearch<N, B>,
    x: u32,
    v: i32,
) -> N {
    if brancher.var_val_activity@.contains_key(x)
        && brancher.var_val_activity@[x]@.contains_key(v) {
        brancher.var_val_activity@[x]@[v].ge
    } else {
        N::whole_spec(0)
    }
}

/// How active it is for the variable at position `x` to be at most `v`, which is zero as long as
/// no nogood has spoken of it.
pub open spec fn upper_activity<N: OrderedNumber, B>(
    brancher: CustomSearch<N, B>,
    x: u32,
    v: i32,
) -> N {
    if brancher.var_val_activity@.contains_key(x)
        && brancher.var_val_activity@[x]@.contains_key(v) {
        brancher.var_val_activity@[x]@[v].le
    } else {
        N::whole_spec(0)
    }
}

proof fn lemma_activity<N: OrderedNumber, B>(brancher: CustomSearch<N, B>, x: u32, v: i32)
    ensures
        lower_activity(brancher, x, v) == activity_at(
            brancher.activities().of(DomainId { id: x }),
            v as int,
        ).ge,
        upper_activity(brancher, x, v) == activity_at(
            brancher.activities().of(DomainId { id: x }),
            v as int,
        ).le,
        brancher.activities().values.contains_key(x)
            <==> brancher.var_val_activity@.contains_key(x),
        brancher.var_val_activity@.contains_key(x) ==> brancher.activities().values[x]
            == brancher.var_val_activity@[x]@,
{
}

/// Learning a predicate raises by the increment, and leaves all other activities as they are:
/// for a lower bound, the activity as a lower bound of every value of the domain that is at least
/// its right-hand side; for an upper bound, the activity as an upper bound of every value of the
/// domain that is at most its right-hand side; for an equality, both activities of its right-hand
/// side, whether that is in the domain or not; and for a disequality, the activity as an upper
/// bound of every value of the domain that is less than its right-hand side, and the activity as a
/// lower bound of every one that is greater. A disequality with the least or greatest
/// representable number raises the activity of that number itself where there is none beyond it.
pub proof fn lemma_learning_raises_activities<N: OrderedNumber, B>(
    before: CustomSearch<N, B>,
    predicate: Predicate,
    assignments: AssignmentsModel,
    after: CustomSearch<N, B>,
    x: u32,
    v: i32,
)
    requires
        domains_wf(assignments),
        can_learn(assignments, predicate),
        after.activities() == before.activities().learned(
            before.increment,
            assignments,
            predicate,
        ),
    ensures
        ({
            let domain = assignments[predicate.domain.id as int];
            let value = predicate.value;
            let concerned = x == predicate.domain.id;
            let in_domain = concerned && domain.lower <= v <= domain.upper
                && !domain.holes.contains(v as int);
            let lower = lower_activity(before, x, v);
            let upper = upper_activity(before, x, v);
            match predicate.predicate_type {
                PredicateType::LowerBound => {
                    &&& lower_activity(after, x, v) == if in_domain && v >= value {
                        lower.plus_spec(before.increment)
                    } else {
                        lower
                    }
                    &&& upper_activity(after, x, v) == upper
                },
                PredicateType::UpperBound => {
                    &&& lower_activity(after, x, v) == lower
                    &&& upper_activity(after, x, v) == if in_domain && v <= value {
                        upper.plus_spec(before.increment)
                    } else {
                        upper
                    }
                },
                PredicateType::Equal => {
                    &&& lower_activity(after, x, v) == if concerned && v == value {
                        lower.plus_spec(before.increment)
                    } else {
                        lower
                    }
                    &&& upper_activity(after, x, v) == if concerned && v == value {
                        upper.plus_spec(before.increment)
                    } else {
                        upper
                    }
                },
                PredicateType::NotEqual => {
                    &&& lower_activity(after, x, v) == if in_domain && (v > value || v == value
                        && value == i32::MAX) {
                        lower.plus_spec(before.increment)
                    } else {
                        lower
                    }
                    &&& upper_activity(after, x, v) == if in_domain && (v < value || v == value
                        && value == i32::MIN) {
                        upper.plus_spec(before.increment)
                    } else {
                        upper
                    }
                },
            }
        }),
{
    lemma_activity(before, x, v);
    lemma_activity(after, x, v);
    let variable = DomainId { id: x };
    if predicate.predicate_type !is Equal {
        before.activities().lemma_learning_bumps_values(
            before.increment,
            assignments,
            predicate,
            v as int,
        );
        if x != predicate.domain.id {
            assert(variable != predicate.domain);
            assert(after.activities().of(variable) == before.activities().of(variable));
        } else {
            assert(variable == predicate.domain);
        }
    }
}

/// Whether learning the predicate raises the activity of the value `v` of the variable at position
/// `x` as a lower bound.
pub open spec fn raises_lower(
    assignments: AssignmentsModel,
    predicate: Predicate,
    x: u32,
    v: i32,
) -> bool {
    let domain = assignments[predicate.domain.id as int];
    let in_domain = domain.lower <= v <= domain.upper && !domain.holes.contains(v as int);
    &&& x == predicate.domain.id
    &&& match predicate.predicate_type {
        PredicateType::LowerBound => in_domain && v >= predicate.value,
        PredicateType::UpperBound => false,
        PredicateType::Equal => v == predicate.value,
        PredicateType::NotEqual => in_domain && (v > predicate.value || v == predicate.value
            && predicate.value == i32::MAX),
    }
}

/// Whether learning the predicate raises the activity of the value `v` of the variable at position
/// `x` as an upper bound.
pub open spec fn raises_upper(
    assignments: AssignmentsModel,
    predicate: Predicate,
    x: u32,
    v: i32,
) -> bool {
    let domain = assignments[predicate.domain.id as int];
    let in_domain = domain.lower <= v <= domain.upper && !domain.holes.contains(v as int);
    &&& x == predicate.domain.id
    &&& match predicate.predicate_type {
        PredicateType::LowerBound => false,
        PredicateType::UpperBound => in_domain && v <= predicate.value,
        PredicateType::Equal => v == predicate.value,
        PredicateType::NotEqual => in_domain && (v < predicate.value || v == predicate.value
            && predicate.value == i32::MIN),
    }
}

/// The number after the step was added once for each of the flags that is set.
pub open spec fn raised_for_each<N: OrderedNumber>(a: N, step: N, flags: Seq<bool>) -> N
    decreases flags.len(),
{
    if flags.len() == 0 {
        a
    } else {
        let earlier = raised_for_each(a, step, flags.drop_last());
        if flags.last() {
            earlier.plus_spec(step)
        } else {
            earlier
        }
    }
}

/// A learned nogood raises every activity once for each of its predicates that concerns it, and
/// leaves the increment as it is.
pub proof fn lemma_nogood_raises_activities<N: OrderedNumber, B: Brancher>(
    before: CustomSearch<N, B>,
    predicates: Seq<Predicate>,
    assignments: AssignmentsModel,
    after: CustomSearch<N, B>,
    x: u32,
    v: i32,
)
    requires
        domains_wf(assignments),
        can_learn_all(assignments, predicates),
        CustomSearch::reacts(
            before,
            Notification::LearnedNogood(predicates, assignments),
            after,
        ),
    ensures
        lower_activity(after, x, v) == raised_for_each(
            lower_activity(before, x, v),
            before.increment,
            Seq::new(
                predicates.len(),
                |i: int| raises_lower(assignments, predicates[i], x, v),
            ),
        ),
        upper_activity(after, x, v) == raised_for_each(
            upper_activity(before, x, v),
            before.increment,
            Seq::new(
                predicates.len(),
                |i: int| raises_upper(assignments, predicates[i], x, v),
            ),
        ),
        after.increment == before.increment,
{
    lemma_activity(before, x, v);
    lemma_activity(after, x, v);
    lemma_learned_all(before.activities(), before.increment, predicates, assignments, x, v);
}

proof fn lemma_learned_all<N: OrderedNumber>(
    activities: Activities<N>,
    increment: N,
    predicates: Seq<Predicate>,
    assignments: AssignmentsModel,
    x: u32,
    v: i32,
)
    requires
        domains_wf(assignments),
        can_learn_all(assignments, predicates),
    ensures
        ({
            let variable = DomainId { id: x };
            let old_activity = activity_at(activities.of(variable), v as int);
            let activity = activity_at(
                activities.learned_all(increment, assignments, predicates).of(variable),
                v as int,
            );
            &&& activity.ge == raised_for_each(
                old_activity.ge,
                increment,
                Seq::new(
                    predicates.len(),
                    |i: int| raises_lower(assignments, predicates[i], x, v),
                ),
            )
            &&& activity.le == raised_for_each(
                old_activity.le,
                increment,
                Seq::new(
                    predicates.len(),
                    |i: int| raises_upper(assignments, predicates[i], x, v),
                ),
            )
        }),
    decreases predicates.len(),
{
    if predicates.len() > 0 {
        let shorter = predicates.drop_last();
        let predicate = predicates.last();
        let variable = DomainId { id: x };
        assert(can_learn_all(assignments, shorter)) by {
            assert forall|i: int| 0 <= i < shorter.len() implies can_learn(
                assignments,
                #[trigger] shorter[i],
            ) by {
                assert(can_learn(assignments, predicates[i]));
            }
        }
        lemma_learned_all(activities, increment, shorter, assignments, x, v);
        let before = activities.learned_all(increment, assignments, shorter);
        assert(can_learn(assignments, predicates[predicates.len() - 1]));
        if predicate.predicate_type !is Equal {
            before.lemma_learning_bumps_values(increment, assignments, predicate, v as int);
            if x != predicate.domain.id {
                assert(variable != predicate.domain);
            } else {
                assert(variable == predicate.domain);
            }
        } else {
            assert(x == predicate.domain.id ==> variable == predicate.domain);
        }
        let lower = Seq::new(
            predicates.len(),
            |i: int| raises_lower(assignments, predicates[i], x, v),
        );
        let upper = Seq::new(
            predicates.len(),
            |i: int| raises_upper(assignments, predicates[i], x, v),
        );
        assert(lower.drop_last() =~= Seq::new(
            shorter.len(),
            |i: int| raises_lower(assignments, shorter[i], x, v),
        ));
        assert(upper.drop_last() =~= Seq::new(
            shorter.len(),
            |i: int| raises_upper(assignments, shorter[i], x, v),
        ));
    }
}

/// Only a learned nogood changes activities of values, only that and a variable that lost its
/// value change the heap, and nothing changes the increment.
pub proof fn lemma_other_notifications<N: OrderedNumber, B: Brancher>(
    before: CustomSearch<N, B>,
    notification: Notification,
    after: CustomSearch<N, B>,
)
    requires
        CustomSearch::reacts(before, notification, after),
    ensures
        notification !is LearnedNogood ==> after.var_val_activity == before.var_val_activity,
        notification !is LearnedNogood && notification !is UnassignInteger ==> after.heap
            == before.heap,
        after.increment == before.increment,
{
}

/// The backup is notified of everything; the brancher asks to be notified of what it uses and of
/// what its backup uses; and it never takes a restart for pointless.
pub proof fn lemma_backup_is_notified<N: OrderedNumber, B: Brancher>(
    before: CustomSearch<N, B>,
    notification: Notification,
    after: CustomSearch<N, B>,
    event: BrancherEvent,
    answer: bool,
    asked: CustomSearch<N, B>,
)
    requires
        CustomSearch::reacts(before, notification, after),
        CustomSearch::judges_restart(before, answer, asked),
    ensures
        B::reacts(before.backup_brancher, notification, after.backup_brancher),
        before.events().contains(event) <==> event is Solution || event is Conflict
            || event is Backtrack || event is Synchronise || event is AppearanceInConflictPredicate
            || event is LearnedNogood || before.backup_brancher.events().contains(event),
        before.events().len() == 6 + before.backup_brancher.events().len(),
        !answer,
        asked == before,
{
    let others = before.backup_brancher.events();
    let events = before.events();
    assert(events[0] == BrancherEvent::Solution);
    assert(events[1] == BrancherEvent::Conflict);
    assert(events[2] == BrancherEvent::Backtrack);
    assert(events[3] == BrancherEvent::Synchronise);
    assert(events[4] == BrancherEvent::AppearanceInConflictPredicate);
    assert(events[5] == BrancherEvent::LearnedNogood);
    if others.contains(event) {
        assert(events[6 + others.index_of(event)] == event);
    }
    if events.contains(event) {
        let i = events.index_of(event);
        if i >= 6 {
            assert(others[i - 6] == event);
        }
    }
}

/// The greater one of the activities of the value `v` of the variable at position `x`.
pub open spec fn greater_activity<N: OrderedNumber, B>(
    brancher: CustomSearch<N, B>,
    x: u32,
    v: i32,
) -> N {
    if lower_activity(brancher, x, v).less_spec(upper_activity(brancher, x, v)) {
        upper_activity(brancher, x, v)
    } else {
        lower_activity(brancher, x, v)
    }
}

/// After any nogoods that a new brancher has learned, the entry in the heap of every variable that
/// one of them raised a value of is an activity of some value of it, and no activity of any of its
/// values is greater.
pub proof fn lemma_heap_holds_greatest_activity<N: OrderedNumber, B: Brancher>(
    states: Seq<CustomSearch<N, B>>,
    nogoods: Seq<(Seq<Predicate>, AssignmentsModel)>,
    n: int,
    x: u32,
    v: i32,
)
    requires
        is_learning_history(states, nogoods),
        0 <= n <= nogoods.len(),
        states[n].var_val_activity@.contains_key(x),
    ensures
        x < states[n].heap@.values.len(),
        states[n].heap@.present.contains(x as int),
        exists|w: i32|
            states[n].heap@.values[x as int] == #[trigger] lower_activity(states[n], x, w)
                || states[n].heap@.values[x as int] == upper_activity(states[n], x, w),
        states[n].var_val_activity@[x]@.contains_key(v) ==> {
            &&& !states[n].heap@.values[x as int].less_spec(lower_activity(states[n], x, v))
            &&& !states[n].heap@.values[x as int].less_spec(upper_activity(states[n], x, v))
        },
{
    let state = states[n];
    lemma_heap_holds_best_scores(states, nogoods, n);
    lemma_activity(state, x, 0);
    let values = state.activities().values[x];
    let entry = state.heap@.values[x as int];
    assert(state.activities().values.contains_key(x));
    let best = choose|v: i32| #[trigger] values.contains_key(v) && values[v].score() == entry;
    assert(values.contains_key(best));
    lemma_activity(state, x, best);
    assert(entry == lower_activity(state, x, best) || entry == upper_activity(state, x, best));
    if state.var_val_activity@[x]@.contains_key(v) {
        assert(values.contains_key(v));
        let ge = values[v].ge;
        let le = values[v].le;
        N::order_is_total(ge, le);
        if ge.less_spec(le) && entry.less_spec(ge) {
            N::order_is_transitive(entry, ge, le);
        }
        if !ge.less_spec(le) && entry.less_spec(le) && le.less_spec(ge) {
            N::order_is_transitive(entry, le, ge);
        }
    }
}

/// Learning a predicate changes the entry in the heap of no other variable, and puts its variable
/// into the heap if it raises the activity of any value.
pub proof fn lemma_learning_concerns_one_variable<N: OrderedNumber, B>(
    before: CustomSearch<N, B>,
    predicate: Predicate,
    assignments: AssignmentsModel,
    after: CustomSearch<N, B>,
    k: int,
    v: i32,
)
    requires
        domains_wf(assignments),
        can_learn(assignments, predicate),
        after.activities() == before.activities().learned(
            before.increment,
            assignments,
            predicate,
        ),
    ensures
        k != predicate.domain.id && 0 <= k < before.heap@.values.len() ==> {
            &&& k < after.heap@.values.len()
            &&& after.heap@.values[k] == before.heap@.values[k]
            &&& after.heap@.present.contains(k) <==> before.heap@.present.contains(k)
        },
        raises_lower(assignments, predicate, predicate.domain.id, v) || raises_upper(
            assignments,
            predicate,
            predicate.domain.id,
            v,
        ) ==> after.heap@.present.contains(predicate.domain.id as int),
{
    let domain = domain_of(assignments, predicate.domain);
    if predicate.predicate_type !is Equal {
        assert(assignments[predicate.domain.id as int].wf());
        lemma_bumped_heap(
            before.activities(),
            before.increment,
            predicate,
            assignments,
            domain.upper,
            k,
            v,
        );
    }
}

proof fn lemma_bumped_heap<N: OrderedNumber>(
    activities: Activities<N>,
    increment: N,
    predicate: Predicate,
    assignments: AssignmentsModel,
    last: int,
    k: int,
    v: i32,
)
    requires
        predicate.predicate_type !is Equal,
    ensures
        ({
            let domain = domain_of(assignments, predicate.domain);
            let after = activities.bumped_up_to(increment, predicate, domain, last);
            &&& activities.heap.values.len() <= after.heap.values.len()
            &&& k != predicate.domain.id && 0 <= k < activities.heap.values.len() ==> {
                &&& after.heap.values[k] == activities.heap.values[k]
                &&& after.heap.present.contains(k) <==> activities.heap.present.contains(k)
            }
            &&& v <= last && (raises_lower(assignments, predicate, predicate.domain.id, v)
                || raises_upper(assignments, predicate, predicate.domain.id, v))
                ==> after.heap.present.contains(predicate.domain.id as int)
        }),
    decreases last - domain_of(assignments, predicate.domain).lower + 1,
{
    let domain = domain_of(assignments, predicate.domain);
    if last >= domain.lower {
        lemma_bumped_heap(activities, increment, predicate, assignments, last - 1, k, v);
    }
}

/// Whether `predicate` is what the brancher would decide on for its variable: the variable has
/// more than one value left and has active values; the predicate bounds it by a value of its
/// domain whose greater activity no value of the domain exceeds, from above if the activity as an
/// upper bound is the greater one, and from below otherwise. Of values with the same greater
/// activity it is the greatest one that is bounded from above, or the least one if none is.
pub open spec fn is_proposed<N: OrderedNumber, B>(
    brancher: CustomSearch<N, B>,
    assignments: AssignmentsModel,
    predicate: Predicate,
) -> bool {
    let x = predicate.domain.id;
    let domain = assignments[x as int];
    let v = predicate.value;
    let from_above = lower_activity(brancher, x, v).less_spec(upper_activity(brancher, x, v));
    &&& domain.lower < domain.upper
    &&& brancher.var_val_activity@.contains_key(x)
    &&& domain.has(v as int)
    &&& from_above ==> predicate.predicate_type is UpperBound
    &&& !from_above ==> predicate.predicate_type is LowerBound
    &&& forall|w: i32|
        domain.has(w as int) ==> !greater_activity(brancher, x, v).less_spec(
            #[trigger] greater_activity(brancher, x, w),
        )
    &&& forall|w: i32|
        domain.has(w as int) && w > v && #[trigger] greater_activity(brancher, x, w)
            == greater_activity(brancher, x, v) ==> !lower_activity(brancher, x, w).less_spec(
            upper_activity(brancher, x, w),
        )
    &&& from_above || forall|w: i32|
        domain.has(w as int) && w < v ==> #[trigger] greater_activity(brancher, x, w)
            != greater_activity(brancher, x, v)
}

proof fn lemma_proposal<N: OrderedNumber, B>(
    brancher: CustomSearch<N, B>,
    assignments: AssignmentsModel,
    k: int,
)
    requires
        domains_wf(assignments),
        0 <= k < assignments.len(),
        k <= u32::MAX,
        !brancher.activities().is_idle(assignments, k),
    ensures
        is_proposed(brancher, assignments, brancher.activities().proposal(assignments, k)),
        brancher.activities().proposal(assignments, k).domain.id == k,
{
    let x = k as u32;
    let variable = domain_id(k);
    let domain = assignments[k];
    assert(domain.wf());
    let values = brancher.activities().of(variable);
    lemma_choice_exists(values, domain);
    let v = choice(values, domain);
    let predicate = brancher.activities().proposal(assignments, k);
    assert(predicate.value == v);
    lemma_activity(brancher, x, predicate.value);
    assert forall|w: i32| domain.has(w as int) implies !greater_activity(
        brancher,
        x,
        predicate.value,
    ).less_spec(#[trigger] greater_activity(brancher, x, w)) by {
        lemma_activity(brancher, x, w);
    }
    assert forall|w: i32|
        domain.has(w as int) && w > predicate.value && #[trigger] greater_activity(brancher, x, w)
            == greater_activity(brancher, x, predicate.value) implies !lower_activity(
        brancher,
        x,
        w,
    ).less_spec(upper_activity(brancher, x, w)) by {
        lemma_activity(brancher, x, w);
    }
    if !activity_at(values, v).prefers_upper() {
        assert forall|w: i32|
            domain.has(w as int) && w < predicate.value implies #[trigger] greater_activity(
            brancher,
            x,
            w,
        ) != greater_activity(brancher, x, predicate.value) by {
            lemma_activity(brancher, x, w);
        }
    }
}

/// There is at most one predicate that the brancher would decide on for each variable.
pub proof fn lemma_one_is_proposed<N: OrderedNumber, B>(
    brancher: CustomSearch<N, B>,
    assignments: AssignmentsModel,
    one: Predicate,
    other: Predicate,
)
    requires
        is_proposed(brancher, assignments, one),
        is_proposed(brancher, assignments, other),
        one.domain == other.domain,
    ensures
        one == other,
{
    let x = one.domain.id;
    let a = greater_activity(brancher, x, one.value);
    let b = greater_activity(brancher, x, other.value);
    N::order_is_total(a, b);
}

proof fn lemma_ready<N: OrderedNumber, B>(
    brancher: CustomSearch<N, B>,
    assignments: AssignmentsModel,
    predicate: Predicate,
)
    requires
        domains_wf(assignments),
        knows(assignments, predicate.domain),
        is_proposed(brancher, assignments, predicate),
    ensures
        !brancher.activities().is_idle(assignments, predicate.domain.id as int),
        predicate == brancher.activities().proposal(assignments, predicate.domain.id as int),
        brancher.activities().is_ready(assignments, predicate.domain.id as int) <==> is_undecided(
            assignments,
            predicate,
        ),
{
    let k = predicate.domain.id as int;
    assert(domain_id(k) == predicate.domain);
    lemma_activity(brancher, predicate.domain.id, predicate.value);
    lemma_proposal(brancher, assignments, k);
    lemma_one_is_proposed(
        brancher,
        assignments,
        predicate,
        brancher.activities().proposal(assignments, k),
    );
    lemma_undecided(assignments, predicate);
}

/// A variable that is not passed over keeps its entry in the heap.
proof fn lemma_passing_keeps_others<N: OrderedNumber>(
    activities: Activities<N>,
    assignments: AssignmentsModel,
    variables: Seq<int>,
    k: int,
)
    requires
        activities.heap.wf(),
        activities.heap.values.len() <= 0x1_0000_0000,
        activities.passes(assignments, variables),
    ensures
        ({
            let after = activities.passed_all(assignments, variables);
            &&& after.values == activities.values
            &&& after.heap.wf()
            &&& after.heap.values.len() == activities.heap.values.len()
            &&& after.heap.present.subset_of(activities.heap.present)
            &&& activities.is_ready(assignments, k) ==> (after.heap.present.contains(k)
                <==> activities.heap.present.contains(k))
            &&& activities.is_ready(assignments, k) && 0 <= k < activities.heap.values.len()
                ==> after.heap.values[k] == activities.heap.values[k]
        }),
        forall|j: int| #[trigger]
            activities.heap.present.contains(j) && !activities.passed_all(
                assignments,
                variables,
            ).heap.present.contains(j) ==> activities.is_idle(assignments, j) || !has_open(
                assignments,
                domain_id(j),
                activities.of(domain_id(j)),
            ),
    decreases variables.len(),
{
    if variables.len() > 0 {
        let shorter = variables.drop_last();
        let last = variables.last();
        assert forall|i: int| 0 <= i < shorter.len() implies {
            let reached = activities.passed_all(assignments, shorter.take(i));
            &&& reached.heap.can_be_next(last_passed(shorter.take(i)), #[trigger] shorter[i])
            &&& !reached.is_ready(assignments, shorter[i])
        } by {
            assert(shorter.take(i) =~= variables.take(i));
            assert(variables[i] == shorter[i]);
        }
        lemma_passing_keeps_others(activities, assignments, shorter, k);
        let before = activities.passed_all(assignments, shorter);
        assert(variables.take(variables.len() - 1) =~= shorter);
        assert(variables[variables.len() - 1] == last);
        assert(before.heap.present.contains(last));
        assert(domain_id(last).id == last);
        assert(before.is_ready(assignments, k) == activities.is_ready(assignments, k));
        assert(before.is_ready(assignments, last) == activities.is_ready(assignments, last));
        assert(before.of(domain_id(last)) == activities.of(domain_id(last)));
    }
}

/// If some variable in the heap has a predicate to decide on that is not decided yet, the decision
/// is such a predicate, of a variable that is no less active than any other such variable; if not,
/// the backup decides. Deciding changes no activity.
pub proof fn lemma_decides_on_most_active<N: OrderedNumber, B: Brancher>(
    before: CustomSearch<N, B>,
    assignments: AssignmentsModel,
    decision: Option<Predicate>,
    after: CustomSearch<N, B>,
    other: Predicate,
)
    requires
        domains_wf(assignments),
        before.can_decide(assignments),
        before.heap@.values.len() <= 0x1_0000_0000,
        CustomSearch::decides(before, assignments, decision, after),
    ensures
        before.heap@.present.contains(other.domain.id as int) && is_proposed(
            before,
            assignments,
            other,
        ) && is_undecided(assignments, other) ==> {
            &&& decision matches Some(predicate)
            &&& before.heap@.present.contains(predicate.domain.id as int)
            &&& is_proposed(before, assignments, predicate)
            &&& is_undecided(assignments, predicate)
            &&& !before.heap@.values[predicate.domain.id as int].less_spec(
                before.heap@.values[other.domain.id as int],
            )
            &&& after.backup_brancher == before.backup_brancher
        },
        (forall|predicate: Predicate|
            before.heap@.present.contains(predicate.domain.id as int) && #[trigger] is_proposed(
                before,
                assignments,
                predicate,
            ) ==> !is_undecided(assignments, predicate)) ==> B::decides(
            before.backup_brancher,
            assignments,
            decision,
            after.backup_brancher,
        ),
        after.var_val_activity == before.var_val_activity,
        after.increment == before.increment,
        after.heap@.values.len() == before.heap@.values.len(),
{
    let activities = before.activities();
    let variables = choose|variables: Seq<int>|
        {
            &&& #[trigger] before.activities().passes(assignments, variables)
            &&& after.activities() == before.activities().passed_all(assignments, variables)
            &&& !after.heap@.present.is_empty() ==> (decision matches Some(predicate)
                && after.heap@.can_be_next(
                last_passed(variables),
                predicate.domain.id as int,
            ))
        };
    before.heap.lemma_view();
    after.heap.lemma_view();
    let k = other.domain.id as int;
    lemma_passing_keeps_others(activities, assignments, variables, k);
    if before.heap@.present.contains(k) && is_proposed(before, assignments, other)
        && is_undecided(assignments, other) {
        lemma_ready(before, assignments, other);
        assert(after.heap@.present.contains(k));
    }
    if !after.heap@.present.is_empty() {
        let predicate = decision->0;
        let d = predicate.domain.id as int;
        assert(domain_id(d) == predicate.domain);
        lemma_passing_keeps_others(activities, assignments, variables, d);
        lemma_proposal(before, assignments, d);
        lemma_ready(before, assignments, predicate);
        assert(is_proposed(before, assignments, predicate));
    }
}

/// Whether the value `v` of the variable at position `x` could still be decided on: it is in the
/// domain, and the bound at it that is more active, the lower one if neither is, is not decided
/// yet.
pub open spec fn can_be_bounded<N: OrderedNumber, B>(
    brancher: CustomSearch<N, B>,
    assignments: AssignmentsModel,
    x: u32,
    v: i32,
) -> bool {
    let from_above = lower_activity(brancher, x, v).less_spec(upper_activity(brancher, x, v));
    &&& assignments[x as int].has(v as int)
    &&& from_above ==> exists|w: int| #[trigger] assignments[x as int].has(w) && w > v
    &&& !from_above ==> exists|w: int| #[trigger] assignments[x as int].has(w) && w < v
    &&& N::lowest_spec().less_spec(greater_activity(brancher, x, v))
}

proof fn lemma_open<N: OrderedNumber, B>(
    brancher: CustomSearch<N, B>,
    assignments: AssignmentsModel,
    x: u32,
    v: i32,
)
    requires
        domains_wf(assignments),
        x < assignments.len(),
    ensures
        is_open(
            assignments,
            DomainId { id: x },
            brancher.activities().of(DomainId { id: x }),
            v as int,
        ) <==> can_be_bounded(brancher, assignments, x, v),
        greater_activity(brancher, x, v) == activity_at(
            brancher.activities().of(DomainId { id: x }),
            v as int,
        ).score(),
{
    let variable = DomainId { id: x };
    let values = brancher.activities().of(variable);
    let domain = assignments[x as int];
    lemma_activity(brancher, x, v);
    assert(domain.wf());
    let predicate = preferred(variable, values, v as int);
    lemma_undecided(assignments, predicate);
    if domain.has(v as int) {
        assert(predicate.holds(v as int));
        if is_undecided(assignments, predicate) {
            let w = choose|w: int| #[trigger] domain.has(w) && !predicate.holds(w);
            assert(domain.has(w));
        }
        let from_above = lower_activity(brancher, x, v).less_spec(upper_activity(brancher, x, v));
        if from_above && exists|w: int| #[trigger] domain.has(w) && w > v {
            let w = choose|w: int| #[trigger] domain.has(w) && w > v;
            assert(domain.has(w) && !predicate.holds(w));
        }
        if !from_above && exists|w: int| #[trigger] domain.has(w) && w < v {
            let w = choose|w: int| #[trigger] domain.has(w) && w < v;
            assert(domain.has(w) && !predicate.holds(w));
        }
    }
}

/// A variable leaves the heap only if it has one value left, or no active values, or no value at
/// which it could still be bounded.
pub proof fn lemma_leaves_only_if_settled<N: OrderedNumber, B: Brancher>(
    before: CustomSearch<N, B>,
    assignments: AssignmentsModel,
    decision: Option<Predicate>,
    after: CustomSearch<N, B>,
    x: u32,
    v: i32,
)
    requires
        domains_wf(assignments),
        before.can_decide(assignments),
        before.heap@.values.len() <= 0x1_0000_0000,
        CustomSearch::decides(before, assignments, decision, after),
    ensures
        after.heap@.present.contains(x as int) ==> before.heap@.present.contains(x as int),
        before.heap@.present.contains(x as int) && !after.heap@.present.contains(x as int) ==> {
            ||| assignments[x as int].lower == assignments[x as int].upper
            ||| !before.var_val_activity@.contains_key(x)
            ||| !can_be_bounded(before, assignments, x, v)
        },
{
    let activities = before.activities();
    let variables = choose|variables: Seq<int>|
        {
            &&& #[trigger] before.activities().passes(assignments, variables)
            &&& after.activities() == before.activities().passed_all(assignments, variables)
            &&& !after.heap@.present.is_empty() ==> (decision matches Some(predicate)
                && after.heap@.can_be_next(
                last_passed(variables),
                predicate.domain.id as int,
            ))
        };
    before.heap.lemma_view();
    lemma_passing_keeps_others(activities, assignments, variables, x as int);
    if before.heap@.present.contains(x as int) {
        assert(domain_id(x as int) == DomainId { id: x });
        lemma_activity(before, x, v);
        lemma_open(before, assignments, x, v);
    }
}

/// The entry of the variable at position `k`, which is zero as long as it has none.
pub open spec fn entry_of<N: OrderedNumber>(heap: HeapModel<N>, k: int) -> N {
    if 0 <= k < heap.values.len() {
        heap.values[k]
    } else {
        N::whole_spec(0)
    }
}

/// Refreshing a variable moves its entry by the difference to the greatest of the greater
/// activities of the values at which it could still be bounded, and takes it out of the heap if
/// there is no such value; no other variable is touched.
pub proof fn lemma_refreshing<N: OrderedNumber, B>(
    before: CustomSearch<N, B>,
    assignments: AssignmentsModel,
    variable: DomainId,
    after: CustomSearch<N, B>,
    k: int,
) -> (best: i32)
    requires
        domains_wf(assignments),
        knows(assignments, variable),
        after.heap@ == before.activities().refreshed(assignments, variable),
    ensures
        ({
            let x = variable.id;
            if before.var_val_activity@.contains_key(x) && exists|v: i32| #[trigger]
                can_be_bounded(before, assignments, x, v) {
                let entry = entry_of(before.heap@, x as int);
                &&& can_be_bounded(before, assignments, x, best)
                &&& forall|v: i32| #[trigger]
                    can_be_bounded(before, assignments, x, v) ==> !greater_activity(
                        before,
                        x,
                        best,
                    ).less_spec(greater_activity(before, x, v))
                &&& after.heap@.present.contains(x as int)
                &&& x < after.heap@.values.len()
                &&& after.heap@.values[x as int] == entry.plus_spec(
                    greater_activity(before, x, best).minus_spec(entry),
                )
            } else {
                &&& !after.heap@.present.contains(x as int)
                &&& after.heap@.values == before.heap@.values
            }
        }),
        k != variable.id && 0 <= k < before.heap@.values.len() ==> {
            &&& k < after.heap@.values.len()
            &&& after.heap@.values[k] == before.heap@.values[k]
            &&& after.heap@.present.contains(k) <==> before.heap@.present.contains(k)
        },
{
    let x = variable.id;
    assert(variable == DomainId { id: x });
    let values = before.activities().of(variable);
    assert(assignments[x as int].wf());
    lemma_activity(before, x, 0);
    assert forall|v: i32| #[trigger] can_be_bounded(before, assignments, x, v) <==> is_open(
        assignments,
        variable,
        values,
        v as int,
    ) by {
        lemma_open(before, assignments, x, v);
    }
    if exists|v: i32| #[trigger] can_be_bounded(before, assignments, x, v) {
        let v = choose|v: i32| #[trigger] can_be_bounded(before, assignments, x, v);
        assert(is_open(assignments, variable, values, v as int));
    }
    if has_open(assignments, variable, values) {
        lemma_greatest_bounded(before, assignments, x)
    } else {
        0
    }
}

/// Whether `entry` is what an entry becomes when it is moved by the difference to the greatest of
/// the greater activities of the values at which the variable at position `x` could still be
/// bounded.
pub open spec fn is_moved_entry<N: OrderedNumber, B>(
    brancher: CustomSearch<N, B>,
    assignments: AssignmentsModel,
    x: u32,
    entry: N,
) -> bool {
    exists|old_entry: N, best: i32|
        {
            &&& can_be_bounded(brancher, assignments, x, best)
            &&& forall|v: i32| #[trigger]
                can_be_bounded(brancher, assignments, x, v) ==> !greater_activity(
                    brancher,
                    x,
                    best,
                ).less_spec(greater_activity(brancher, x, v))
            &&& entry == #[trigger] old_entry.plus_spec(
                (#[trigger] greater_activity(brancher, x, best)).minus_spec(old_entry),
            )
        }
}

/// Passing over the variable at the top of the heap takes it out if it has one value left or no
/// active values, or no value at which it could still be bounded, and otherwise moves its entry to
/// the greatest activity that such a value has; no other variable is touched, and no activity of a
/// value changes.
pub proof fn lemma_passing_over<N: OrderedNumber, B>(
    before: CustomSearch<N, B>,
    assignments: AssignmentsModel,
    variable: DomainId,
    after: CustomSearch<N, B>,
    k: int,
)
    requires
        domains_wf(assignments),
        knows(assignments, variable),
        before.heap@.wf(),
        before.heap@.present.contains(variable.id as int),
        after.activities() == before.activities().passed(assignments, variable.id as int),
    ensures
        ({
            let x = variable.id;
            if assignments[x as int].lower < assignments[x as int].upper
                && before.var_val_activity@.contains_key(x) && exists|v: i32| #[trigger]
                can_be_bounded(before, assignments, x, v) {
                &&& after.heap@.present.contains(x as int)
                &&& is_moved_entry(before, assignments, x, after.heap@.values[x as int])
            } else {
                !after.heap@.present.contains(x as int)
            }
        }),
        k != variable.id && 0 <= k < before.heap@.values.len() ==> {
            &&& after.heap@.values[k] == before.heap@.values[k]
            &&& after.heap@.present.contains(k) <==> before.heap@.present.contains(k)
        },
        after.heap@.values.len() == before.heap@.values.len(),
        after.values() == before.values(),
{
    let x = variable.id;
    assert(domain_id(x as int) == variable);
    assert(assignments[x as int].wf());
    lemma_activity(before, x, 0);
    if !before.activities().is_idle(assignments, x as int) {
        let refreshed = CustomSearch { heap: after.heap, ..before };
        let best = lemma_refreshing(before, assignments, variable, refreshed, k);
        if exists|v: i32| #[trigger] can_be_bounded(before, assignments, x, v) {
            let entry = entry_of(before.heap@, x as int);
            assert(after.heap@.values[x as int] == entry.plus_spec(
                greater_activity(before, x, best).minus_spec(entry),
            ));
        }
    }
}

/// While the brancher looks for a decision, the entry of every variable stays as it is or is moved
/// to the greatest activity of a value at which the variable could still be bounded.
pub proof fn lemma_entries_move_to_open_values<N: OrderedNumber, B: Brancher>(
    before: CustomSearch<N, B>,
    assignments: AssignmentsModel,
    decision: Option<Predicate>,
    after: CustomSearch<N, B>,
    x: u32,
)
    requires
        domains_wf(assignments),
        before.can_decide(assignments),
        before.heap@.values.len() <= 0x1_0000_0000,
        CustomSearch::decides(before, assignments, decision, after),
        x < before.heap@.values.len(),
    ensures
        after.heap@.values[x as int] == before.heap@.values[x as int] || is_moved_entry(
            before,
            assignments,
            x,
            after.heap@.values[x as int],
        ),
{
    let activities = before.activities();
    let variables = choose|variables: Seq<int>|
        {
            &&& #[trigger] before.activities().passes(assignments, variables)
            &&& after.activities() == before.activities().passed_all(assignments, variables)
            &&& !after.heap@.present.is_empty() ==> (decision matches Some(predicate)
                && after.heap@.can_be_next(
                last_passed(variables),
                predicate.domain.id as int,
            ))
        };
    before.heap.lemma_view();
    lemma_passed_entries(before, assignments, variables, x);
}

proof fn lemma_passed_entries<N: OrderedNumber, B>(
    brancher: CustomSearch<N, B>,
    assignments: AssignmentsModel,
    variables: Seq<int>,
    x: u32,
)
    requires
        domains_wf(assignments),
        brancher.heap@.wf(),
        brancher.heap@.values.len() <= assignments.len(),
        brancher.heap@.values.len() <= 0x1_0000_0000,
        brancher.activities().passes(assignments, variables),
        x < brancher.heap@.values.len(),
    ensures
        ({
            let after = brancher.activities().passed_all(assignments, variables);
            after.heap.values[x as int] == brancher.heap@.values[x as int] || is_moved_entry(
                brancher,
                assignments,
                x,
                after.heap.values[x as int],
            )
        }),
    decreases variables.len(),
{
    if variables.len() > 0 {
        let activities = brancher.activities();
        let shorter = variables.drop_last();
        let last = variables.last();
        assert forall|i: int| 0 <= i < shorter.len() implies {
            let reached = activities.passed_all(assignments, shorter.take(i));
            &&& reached.heap.can_be_next(last_passed(shorter.take(i)), #[trigger] shorter[i])
            &&& !reached.is_ready(assignments, shorter[i])
        } by {
            assert(shorter.take(i) =~= variables.take(i));
            assert(variables[i] == shorter[i]);
        }
        lemma_passed_entries(brancher, assignments, shorter, x);
        lemma_passing_keeps_others(activities, assignments, shorter, x as int);
        let before = activities.passed_all(assignments, shorter);
        let after = activities.passed_all(assignments, variables);
        assert(variables.take(variables.len() - 1) =~= shorter);
        assert(variables[variables.len() - 1] == last);
        assert(before.heap.present.contains(last));
        let variable = DomainId { id: x };
        if last == x && !before.is_idle(assignments, last) {
            assert(domain_id(last) == variable);
            let values = activities.of(variable);
            assert(before.of(variable) == values);
            if has_open(assignments, variable, values) {
                let best = lemma_greatest_bounded(brancher, assignments, x);
                let entry = before.heap.values[x as int];
                assert(after.heap.values[x as int] == entry.plus_spec(
                    greater_activity(brancher, x, best).minus_spec(entry),
                ));
            }
        }
    }
}

proof fn lemma_greatest_bounded<N: OrderedNumber, B>(
    brancher: CustomSearch<N, B>,
    assignments: AssignmentsModel,
    x: u32,
) -> (best: i32)
    requires
        domains_wf(assignments),
        x < assignments.len(),
        has_open(
            assignments,
            DomainId { id: x },
            brancher.activities().of(DomainId { id: x }),
        ),
    ensures
        can_be_bounded(brancher, assignments, x, best),
        forall|v: i32| #[trigger]
            can_be_bounded(brancher, assignments, x, v) ==> !greater_activity(
                brancher,
                x,
                best,
            ).less_spec(greater_activity(brancher, x, v)),
        greater_activity(brancher, x, best) == greatest_open_score(
            assignments,
            DomainId { id: x },
            brancher.activities().of(DomainId { id: x }),
        ),
{
    let variable = DomainId { id: x };
    let values = brancher.activities().of(variable);
    assert(assignments[x as int].wf());
    lemma_best_open_exists(assignments, variable, values);
    let score = greatest_open_score(assignments, variable, values);
    let best = choose|v: int| #[trigger]
        is_open(assignments, variable, values, v) && activity_at(values, v).score() == score;
    assert(is_open(assignments, variable, values, best));
    let best = best as i32;
    lemma_open(brancher, assignments, x, best);
    assert forall|v: i32| #[trigger]
        can_be_bounded(brancher, assignments, x, v) implies !greater_activity(
        brancher,
        x,
        best,
    ).less_spec(greater_activity(brancher, x, v)) by {
        lemma_open(brancher, assignments, x, v);
        assert(is_open(assignments, variable, values, v as int));
    }
    best
}

/// A new brancher has no active values and an empty heap, and adds one.
pub proof fn lemma_new_brancher<N: OrderedNumber, B>(brancher: CustomSearch<N, B>)
    requires
        brancher.is_new(),
    ensures
        forall|x: u32| !(#[trigger] brancher.var_val_activity@.contains_key(x)),
        brancher.heap@.values.len() == 0,
        brancher.heap@.present.is_empty(),
        brancher.increment == N::whole_spec(1),
{
    assert forall|x: u32| !(#[trigger] brancher.var_val_activity@.contains_key(x)) by {
        lemma_activity(brancher, x, 0);
    }
}

/// A variable that lost its value is in the heap again. If it has active values, its entry is
/// moved by the difference to the greatest of their greater activities; if not, it keeps its
/// entry. No other variable is touched.
pub proof fn lemma_unassigning_wakes<N: OrderedNumber, B: Brancher>(
    before: CustomSearch<N, B>,
    variable: DomainId,
    value: int,
    after: CustomSearch<N, B>,
    k: int,
) -> (best: i32)
    requires
        CustomSearch::reacts(before, Notification::UnassignInteger(variable, value), after),
    ensures
        ({
            let x = variable.id;
            let entry = entry_of(before.heap@, x as int);
            &&& after.heap@.present.contains(x as int)
            &&& x < after.heap@.values.len()
            &&& if before.var_val_activity@.contains_key(x) {
                let values = before.var_val_activity@[x]@;
                if exists|v: i32| #[trigger] values.contains_key(v) {
                    &&& values.contains_key(best)
                    &&& forall|v: i32| #[trigger]
                        values.contains_key(v) ==> !greater_activity(before, x, best).less_spec(
                            greater_activity(before, x, v),
                        )
                    &&& after.heap@.values[x as int] == entry.plus_spec(
                        greater_activity(before, x, best).minus_spec(entry),
                    )
                } else {
                    after.heap@.values[x as int] == entry.plus_spec(
                        N::whole_spec(0).minus_spec(entry),
                    )
                }
            } else {
                after.heap@.values[x as int] == entry
            }
        }),
        k != variable.id && 0 <= k < before.heap@.values.len() ==> {
            &&& k < after.heap@.values.len()
            &&& after.heap@.values[k] == before.heap@.values[k]
            &&& after.heap@.present.contains(k) <==> before.heap@.present.contains(k)
        },
{
    let x = variable.id;
    assert(variable == DomainId { id: x });
    let values = before.activities().of(variable);
    lemma_activity(before, x, 0);
    lemma_best_score_exists(values);
    let score = greatest_score(values);
    if !values.dom().is_empty() {
        let best = choose|v: i32| #[trigger] values.contains_key(v) && values[v].score() == score;
        assert(values.contains_key(best));
        lemma_activity(before, x, best);
        assert forall|v: i32| #[trigger] values.contains_key(v) implies !greater_activity(
            before,
            x,
            best,
        ).less_spec(greater_activity(before, x, v)) by {
            lemma_activity(before, x, v);
        }
        best
    } else {
        assert forall|v: i32| !(#[trigger] values.contains_key(v)) by {
            assert(!values.dom().contains(v));
        }
        0
    }
}

/// The brancher logs what its backup logs.
pub proof fn lemma_logs<N: OrderedNumber, B: Brancher>(
    brancher: CustomSearch<N, B>,
    prefix: Seq<&'static str>,
)
    ensures
        brancher.logged(prefix) == brancher.backup_brancher.logged(prefix),
{
}

} // verus!
