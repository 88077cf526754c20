//! Branching on the values that learned nogoods speak of most.

use crate::assignments::{
    all_fixed, domain_of, domains_wf, is_assigned, is_fixed, knows, AssignmentsModel, DomainModel,
    SelectionContext, SolutionReference,
};
use crate::branching::brancher::{Brancher, BrancherEvent, LearnedNogood, Notification};
use crate::branching::independent_variable_value_brancher::IndependentVariableValueBrancher;
use crate::branching::selection::is_first_unfixed;
use crate::containers::key_value_heap::{
    lemma_not_below_is_transitive, HeapModel, KeyValueHeap,
};
use crate::fixed::Fixed;
use crate::number::{is_count, lemma_counts, tally, OrderedNumber};
use crate::predicates::{Predicate, PredicateType};
use crate::statistics::{LoggedStatistics, SearchStatistics, StatisticLogger};
use crate::variables::{domain_id, DomainId};
use std::collections::HashMap;
use vstd::prelude::*;
use vstd::std_specs::hash::spec_values_iter;
use vstd::std_specs::iter::IteratorSpec;

verus! {

broadcast use vstd::std_specs::hash::group_hash_axioms;

/// How active one value of a variable is, in both directions.
#[derive(Debug)]
pub struct ValueActivity<N> {
    /// How active it is to be at least the value.
    pub ge: N,
    /// How active it is to be at most the value.
    pub le: N,
}

impl<N: OrderedNumber> Clone for ValueActivity<N> {
    fn clone(&self) -> (r: Self)
        ensures
            r == *self,
    {
        ValueActivity { ge: self.ge, le: self.le }
    }
}

impl<N: OrderedNumber> Copy for ValueActivity<N> {

}

/// The activities of the values of one variable.
pub type ValueModel<N> = Map<i32, ValueActivity<N>>;

/// The activities of the values of every variable, by the identifier of the variable.
pub type ValueModels<N> = Map<u32, ValueModel<N>>;

impl<N: OrderedNumber> ValueActivity<N> {
    /// The activity of a value that was never bumped.
    pub open spec fn zero() -> Self {
        ValueActivity { ge: N::whole_spec(0), le: N::whole_spec(0) }
    }

    /// The greater one of the activities in the two directions.
    pub open spec fn score(self) -> N {
        if self.prefers_upper() {
            self.le
        } else {
            self.ge
        }
    }

    /// Whether the value is more active as an upper bound than as a lower bound.
    pub open spec fn prefers_upper(self) -> bool {
        self.ge.less_spec(self.le)
    }

    /// The activity after `increment` was added in the given directions.
    pub open spec fn bumped(self, increment: N, direction: Direction) -> Self {
        ValueActivity {
            ge: if direction.ge {
                self.ge.plus_spec(increment)
            } else {
                self.ge
            },
            le: if direction.le {
                self.le.plus_spec(increment)
            } else {
                self.le
            },
        }
    }
}

/// In which directions a value is bumped.
#[derive(Clone, Copy, Debug, PartialEq, Eq, Structural)]
pub struct Direction {
    /// As a lower bound.
    pub ge: bool,
    /// As an upper bound.
    pub le: bool,
}

/// A brancher that selects the variable with the most active value and branches on that value.
///
/// The values that satisfy a predicate of a learned nogood become more active, in the direction
/// in which the predicate bounds them. If no variable has an active value left to branch on, the
/// backup brancher decides.
#[derive(Debug)]
pub struct CustomSearch<N, BackupBrancher> {
    /// Makes the decision when no variable in the heap is left to decide.
    pub backup_brancher: BackupBrancher,
    /// How much the activity of a value is increased.
    pub increment: N,
    /// Stores the activities of the values of each variable.
    pub var_val_activity: HashMap<u32, HashMap<i32, ValueActivity<N>>>,
    /// Stores, for each variable, how active its most active value is; for a variable that was
    /// passed over, its most active value that was left to decide.
    pub heap: KeyValueHeap<DomainId, N>,
}

/// What came of looking at the variable at the top of the heap.
#[derive(Clone, Copy, Debug, PartialEq, Eq, Structural)]
pub enum SearchStep {
    /// This is the decision.
    Decided(Predicate),
    /// The variable was passed over.
    PassedOver,
    /// The heap has no variable left.
    Exhausted,
}

/// The activity of the value `v`.
pub open spec fn activity_at<N: OrderedNumber>(values: ValueModel<N>, v: int) -> ValueActivity<N> {
    if values.contains_key(v as i32) {
        values[v as i32]
    } else {
        ValueActivity::zero()
    }
}

/// The bound at `v` that is more active; the lower bound if neither is.
pub open spec fn preferred<N: OrderedNumber>(
    variable: DomainId,
    values: ValueModel<N>,
    v: int,
) -> Predicate {
    Predicate {
        domain: variable,
        predicate_type: if activity_at(values, v).prefers_upper() {
            PredicateType::UpperBound
        } else {
            PredicateType::LowerBound
        },
        value: v as i32,
    }
}

/// Whether `v` is the value of the domain to branch on: no value has a greater score, and of the
/// values with the same score it is the greatest one that prefers its upper bound, or the least
/// one if none does.
pub open spec fn is_choice<N: OrderedNumber>(
    values: ValueModel<N>,
    domain: DomainModel,
    v: int,
) -> bool {
    let score = activity_at(values, v).score();
    &&& domain.has(v)
    &&& forall|w: int| #[trigger]
        domain.has(w) ==> !score.less_spec(activity_at(values, w).score())
    &&& forall|w: int| #[trigger]
        domain.has(w) && w > v && activity_at(values, w).score() == score ==> !activity_at(
            values,
            w,
        ).prefers_upper()
    &&& activity_at(values, v).prefers_upper() || forall|w: int| #[trigger]
        domain.has(w) && w < v ==> activity_at(values, w).score() != score
}

/// The value of the domain to branch on.
pub open spec fn choice<N: OrderedNumber>(values: ValueModel<N>, domain: DomainModel) -> int {
    choose|v: int| is_choice(values, domain, v)
}

/// Whether the more active bound at `v` is left to decide.
pub open spec fn is_open<N: OrderedNumber>(
    assignments: AssignmentsModel,
    variable: DomainId,
    values: ValueModel<N>,
    v: int,
) -> bool {
    &&& domain_of(assignments, variable).has(v)
    &&& !is_assigned(assignments, preferred(variable, values, v))
    &&& N::lowest_spec().less_spec(activity_at(values, v).score())
}

/// Whether `score` is the greatest score of a value whose more active bound is left to decide.
pub open spec fn is_best_open<N: OrderedNumber>(
    assignments: AssignmentsModel,
    variable: DomainId,
    values: ValueModel<N>,
    score: N,
) -> bool {
    &&& exists|v: int| #[trigger]
        is_open(assignments, variable, values, v) && activity_at(values, v).score() == score
    &&& forall|v: int| #[trigger]
        is_open(assignments, variable, values, v) ==> !score.less_spec(
            activity_at(values, v).score(),
        )
}

/// The greatest score of a value whose more active bound is left to decide.
pub open spec fn greatest_open_score<N: OrderedNumber>(
    assignments: AssignmentsModel,
    variable: DomainId,
    values: ValueModel<N>,
) -> N {
    choose|score: N| is_best_open(assignments, variable, values, score)
}

/// Whether some value has a bound that is more active than the other one and left to decide.
pub open spec fn has_open<N: OrderedNumber>(
    assignments: AssignmentsModel,
    variable: DomainId,
    values: ValueModel<N>,
) -> bool {
    exists|v: int| #[trigger] is_open(assignments, variable, values, v)
}

/// Whether `score` is the greatest score of any value, or zero if there are no values.
pub open spec fn is_best_score<N: OrderedNumber>(values: ValueModel<N>, score: N) -> bool {
    if values.dom().is_empty() {
        score == N::whole_spec(0)
    } else {
        &&& exists|v: i32| #[trigger] values.contains_key(v) && values[v].score() == score
        &&& forall|v: i32| #[trigger]
            values.contains_key(v) ==> !score.less_spec(values[v].score())
    }
}

/// The greatest score of any value, or zero if there are no values.
pub open spec fn greatest_score<N: OrderedNumber>(values: ValueModel<N>) -> N {
    choose|score: N| is_best_score(values, score)
}

/// The heap in which the variable has an entry and is present.
pub open spec fn with_entry<N: OrderedNumber>(heap: HeapModel<N>, variable: DomainId) -> HeapModel<
    N,
> {
    heap.grown_to(variable.id as nat, N::whole_spec(0)).restored(variable.id as int)
}

/// The heap in which the variable is present and its value has been moved to `new_value`.
pub open spec fn with_value<N: OrderedNumber>(
    heap: HeapModel<N>,
    variable: DomainId,
    new_value: N,
) -> HeapModel<N> {
    let k = variable.id as int;
    let entry = with_entry(heap, variable);
    entry.incremented(k, new_value.minus_spec(entry.values[k]))
}

/// The activities of the values together with the heap of the variables.
#[verifier::ext_equal]
pub struct Activities<N> {
    /// The activities of the values of every variable.
    pub values: ValueModels<N>,
    /// The heap of the variables.
    pub heap: HeapModel<N>,
}

/// Whether the domain of the variable of `predicate` is there if learning the predicate looks at
/// it. An equality is learned without looking.
pub open spec fn can_learn(assignments: AssignmentsModel, predicate: Predicate) -> bool {
    predicate.predicate_type is Equal || knows(assignments, predicate.domain)
}

/// Whether all predicates can be learned under these domains.
pub open spec fn can_learn_all(assignments: AssignmentsModel, predicates: Seq<Predicate>) -> bool {
    forall|i: int|
        0 <= i < predicates.len() ==> can_learn(assignments, #[trigger] predicates[i])
}

/// The variable that was passed over last.
pub open spec fn last_passed(variables: Seq<int>) -> Option<int> {
    if variables.len() == 0 {
        None
    } else {
        Some(variables.last())
    }
}

/// In which directions a nogood with `predicate` bumps the value `v` of its variable.
pub open spec fn direction(predicate: Predicate, v: int) -> Direction {
    let value = predicate.value as int;
    match predicate.predicate_type {
        PredicateType::LowerBound => Direction { ge: v >= value, le: false },
        PredicateType::UpperBound => Direction { ge: false, le: v <= value },
        PredicateType::Equal => Direction { ge: v == value, le: v == value },
        PredicateType::NotEqual => Direction {
            ge: v > value || v == value == i32::MAX,
            le: v < value || v == value == i32::MIN,
        },
    }
}

impl<N: OrderedNumber> Activities<N> {
    /// The activities of the values of `variable`.
    pub open spec fn of(self, variable: DomainId) -> ValueModel<N> {
        if self.values.contains_key(variable.id) {
            self.values[variable.id]
        } else {
            Map::empty()
        }
    }

    /// The activities after the value `v` of `variable` was bumped. The variable's entry in the
    /// heap is raised to the new score of the value if that is greater.
    pub open spec fn bumped(
        self,
        increment: N,
        variable: DomainId,
        v: int,
        direction: Direction,
    ) -> Self {
        let activity = activity_at(self.of(variable), v).bumped(increment, direction);
        let entry = with_entry(self.heap, variable);
        Activities {
            values: self.values.insert(
                variable.id,
                self.of(variable).insert(v as i32, activity),
            ),
            heap: if entry.values[variable.id as int].less_spec(activity.score()) {
                with_value(self.heap, variable, activity.score())
            } else {
                entry
            },
        }
    }

    /// The activities after the values of `domain` that are at most `last` were bumped, in
    /// ascending order, in the directions that `predicate` gives them.
    pub open spec fn bumped_up_to(
        self,
        increment: N,
        predicate: Predicate,
        domain: DomainModel,
        last: int,
    ) -> Self
        decreases last - domain.lower + 1,
    {
        if last < domain.lower {
            self
        } else {
            let rest = self.bumped_up_to(increment, predicate, domain, last - 1);
            let towards = direction(predicate, last);
            if domain.has(last) && (towards.ge || towards.le) {
                rest.bumped(increment, predicate.domain, last, towards)
            } else {
                rest
            }
        }
    }

    /// The activities after a nogood with `predicate` was learned. An equality bumps its value
    /// even if the domain has lost it.
    pub open spec fn learned(
        self,
        increment: N,
        assignments: AssignmentsModel,
        predicate: Predicate,
    ) -> Self {
        let domain = domain_of(assignments, predicate.domain);
        if predicate.predicate_type is Equal {
            self.bumped(
                increment,
                predicate.domain,
                predicate.value as int,
                Direction { ge: true, le: true },
            )
        } else {
            self.bumped_up_to(increment, predicate, domain, domain.upper)
        }
    }

    /// The activities after a nogood with the given predicates was learned.
    pub open spec fn learned_all(
        self,
        increment: N,
        assignments: AssignmentsModel,
        predicates: Seq<Predicate>,
    ) -> Self
        decreases predicates.len(),
    {
        if predicates.len() == 0 {
            self
        } else {
            self.learned_all(increment, assignments, predicates.drop_last()).learned(
                increment,
                assignments,
                predicates.last(),
            )
        }
    }

    /// The heap after `variable` was found to be settled for now: it keeps its best score that is
    /// left to decide, or leaves the heap if there is none.
    pub open spec fn refreshed(
        self,
        assignments: AssignmentsModel,
        variable: DomainId,
    ) -> HeapModel<N> {
        if self.values.contains_key(variable.id) && has_open(
            assignments,
            variable,
            self.of(variable),
        ) {
            with_value(
                self.heap,
                variable,
                greatest_open_score(assignments, variable, self.of(variable)),
            )
        } else {
            self.heap.deleted(variable.id as int)
        }
    }

    /// The heap after `variable` may have become undecided: it is present with the greatest score
    /// of its values.
    pub open spec fn recovered(self, variable: DomainId) -> HeapModel<N> {
        if self.values.contains_key(variable.id) {
            with_value(
                self.heap,
                variable,
                greatest_score(self.of(variable)),
            )
        } else {
            with_entry(self.heap, variable)
        }
    }

    /// Whether there is nothing to branch on for variable `k`.
    pub open spec fn is_idle(self, assignments: AssignmentsModel, k: int) -> bool {
        is_fixed(assignments, domain_id(k)) || !self.values.contains_key(k as u32)
    }

    /// What to branch on for variable `k`.
    pub open spec fn proposal(self, assignments: AssignmentsModel, k: int) -> Predicate {
        let values = self.of(domain_id(k));
        preferred(
            domain_id(k),
            values,
            choice(values, domain_of(assignments, domain_id(k))),
        )
    }

    /// Whether what to branch on for variable `k` is left to decide.
    pub open spec fn is_ready(self, assignments: AssignmentsModel, k: int) -> bool {
        !self.is_idle(assignments, k) && !is_assigned(assignments, self.proposal(assignments, k))
    }

    /// The activities after variable `k` was passed over.
    pub open spec fn passed(self, assignments: AssignmentsModel, k: int) -> Self {
        Activities {
            values: self.values,
            heap: if self.is_idle(assignments, k) {
                self.heap.deleted(k)
            } else {
                self.refreshed(assignments, domain_id(k))
            },
        }
    }

    /// The activities after the given variables were passed over.
    pub open spec fn passed_all(self, assignments: AssignmentsModel, variables: Seq<int>) -> Self
        decreases variables.len(),
    {
        if variables.len() == 0 {
            self
        } else {
            self.passed_all(assignments, variables.drop_last()).passed(
                assignments,
                variables.last(),
            )
        }
    }

    /// Whether the given variables come up and are passed over, one after the other. A variable
    /// that was just passed over comes up again only if it is more active than all others.
    pub open spec fn passes(self, assignments: AssignmentsModel, variables: Seq<int>) -> bool {
        forall|i: int|
            0 <= i < variables.len() ==> {
                let reached = self.passed_all(assignments, variables.take(i));
                &&& reached.heap.can_be_next(
                    last_passed(variables.take(i)),
                    #[trigger] variables[i],
                )
                &&& !reached.is_ready(assignments, variables[i])
            }
    }

    /// Whether a variable to branch on comes up, or the heap runs out, after at most `steps`
    /// variables were passed over, whichever of equally active variables come up first; `held` is
    /// the variable that was just passed over.
    pub open spec fn settles_within(
        self,
        assignments: AssignmentsModel,
        held: Option<int>,
        steps: nat,
    ) -> bool
        decreases steps,
    {
        forall|k: int| #[trigger]
            self.heap.can_be_next(held, k) ==> self.is_ready(assignments, k) || steps > 0
                && self.passed(assignments, k).settles_within(
                assignments,
                Some(k),
                (steps - 1) as nat,
            )
    }

    /// Whether a variable to branch on comes up at some point, or the heap runs out.
    ///
    /// This fails where the same variables keep coming up although the bounds that they would
    /// branch on are assigned: another one of their values keeps each of them in the heap, as
    /// active as anything else in it.
    pub open spec fn settles(self, assignments: AssignmentsModel) -> bool {
        exists|steps: nat| #[trigger] self.settles_within(assignments, None, steps)
    }
}

/// There is at most one greatest score of a value whose more active bound is left to decide.
pub proof fn lemma_best_open_is_unique<N: OrderedNumber>(
    assignments: AssignmentsModel,
    variable: DomainId,
    values: ValueModel<N>,
    a: N,
    b: N,
)
    requires
        is_best_open(assignments, variable, values, a),
        is_best_open(assignments, variable, values, b),
    ensures
        a == b,
{
    let v = choose|v: int| #[trigger]
        is_open(assignments, variable, values, v) && activity_at(values, v).score() == a;
    let w = choose|w: int| #[trigger]
        is_open(assignments, variable, values, w) && activity_at(values, w).score() == b;
    assert(is_open(assignments, variable, values, v));
    assert(is_open(assignments, variable, values, w));
    N::order_is_total(a, b);
}

/// There is at most one value to branch on.
pub proof fn lemma_choice_is_unique<N: OrderedNumber>(
    values: ValueModel<N>,
    domain: DomainModel,
    v: int,
    w: int,
)
    requires
        is_choice(values, domain, v),
        is_choice(values, domain, w),
    ensures
        v == w,
{
    assert(domain.has(v) && domain.has(w));
    N::order_is_total(activity_at(values, v).score(), activity_at(values, w).score());
}

/// There is at most one greatest score.
pub proof fn lemma_best_score_is_unique<N: OrderedNumber>(values: ValueModel<N>, a: N, b: N)
    requires
        is_best_score(values, a),
        is_best_score(values, b),
    ensures
        a == b,
{
    if !values.dom().is_empty() {
        let v = choose|v: i32| #[trigger] values.contains_key(v) && values[v].score() == a;
        let w = choose|w: i32| #[trigger] values.contains_key(w) && values[w].score() == b;
        assert(values.contains_key(v) && values.contains_key(w));
        N::order_is_total(a, b);
    }
}

/// Of the integers between `lower` and `last` with the property `p`, if there are any, one has
/// the greatest score.
proof fn lemma_greatest_score<N: OrderedNumber>(
    p: spec_fn(int) -> bool,
    score: spec_fn(int) -> N,
    lower: int,
    last: int,
) -> (r: int)
    requires
        exists|v: int| lower <= v <= last && #[trigger] p(v),
    ensures
        lower <= r <= last,
        p(r),
        forall|w: int|
            lower <= w <= last && #[trigger] p(w) ==> !score(r).less_spec(score(w)),
    decreases last - lower,
{
    N::order_is_total(score(last), score(last));
    if exists|v: int| lower <= v <= last - 1 && #[trigger] p(v) {
        let r = lemma_greatest_score(p, score, lower, last - 1);
        if p(last) && score(r).less_spec(score(last)) {
            assert forall|w: int|
                lower <= w <= last && #[trigger] p(w) implies !score(last).less_spec(score(w)) by {
                if w < last && score(last).less_spec(score(w)) {
                    N::order_is_transitive(score(r), score(last), score(w));
                }
            }
            last
        } else {
            r
        }
    } else {
        last
    }
}

/// Of the integers from `v` to `upper` with the property `p`, one is the greatest.
proof fn lemma_greatest(p: spec_fn(int) -> bool, v: int, upper: int) -> (r: int)
    requires
        p(v),
        v <= upper,
    ensures
        v <= r <= upper,
        p(r),
        forall|w: int| r < w <= upper ==> !#[trigger] p(w),
    decreases upper - v,
{
    if exists|w: int| v < w <= upper && #[trigger] p(w) {
        let w = choose|w: int| v < w <= upper && #[trigger] p(w);
        lemma_greatest(p, w, upper)
    } else {
        v
    }
}

/// Of the integers from `lower` to `v` with the property `p`, one is the least.
proof fn lemma_least(p: spec_fn(int) -> bool, lower: int, v: int) -> (r: int)
    requires
        p(v),
        lower <= v,
    ensures
        lower <= r <= v,
        p(r),
        forall|w: int| lower <= w < r ==> !#[trigger] p(w),
    decreases v - lower,
{
    if exists|w: int| lower <= w < v && #[trigger] p(w) {
        let w = choose|w: int| lower <= w < v && #[trigger] p(w);
        lemma_least(p, lower, w)
    } else {
        v
    }
}

/// Every domain has a value to branch on.
pub proof fn lemma_choice_exists<N: OrderedNumber>(values: ValueModel<N>, domain: DomainModel)
    requires
        domain.wf(),
    ensures
        is_choice(values, domain, choice(values, domain)),
{
    let has = |v: int| domain.has(v);
    let score = |v: int| activity_at(values, v).score();
    assert(has(domain.lower));
    let best = lemma_greatest_score(has, score, domain.lower, domain.upper);
    let equal = |v: int| domain.has(v) && score(v) == score(best);
    let upper = |v: int| equal(v) && activity_at(values, v).prefers_upper();
    assert(equal(best));
    assert forall|w: int| #[trigger] domain.has(w) implies !score(best).less_spec(score(w)) by {
        assert(has(w));
    }
    let v = if exists|w: int| #[trigger] upper(w) {
        let w = choose|w: int| #[trigger] upper(w);
        lemma_greatest(upper, w, domain.upper)
    } else {
        lemma_least(equal, domain.lower, best)
    };
    assert forall|w: int| #[trigger]
        domain.has(w) && w > v && score(w) == score(v) implies !activity_at(
        values,
        w,
    ).prefers_upper() by {
        assert(!upper(w));
    }
    if !activity_at(values, v).prefers_upper() {
        assert forall|w: int| #[trigger] domain.has(w) && w < v implies score(w) != score(v) by {
            assert(!equal(w));
        }
    }
    assert(is_choice(values, domain, v));
}

/// If some value has a more active bound that is left to decide, there is a greatest score of
/// such values.
pub proof fn lemma_best_open_exists<N: OrderedNumber>(
    assignments: AssignmentsModel,
    variable: DomainId,
    values: ValueModel<N>,
)
    requires
        has_open(assignments, variable, values),
    ensures
        is_best_open(
            assignments,
            variable,
            values,
            greatest_open_score(assignments, variable, values),
        ),
{
    let open = |v: int| is_open(assignments, variable, values, v);
    let score = |v: int| activity_at(values, v).score();
    let domain = domain_of(assignments, variable);
    let v = choose|v: int| #[trigger] is_open(assignments, variable, values, v);
    assert(open(v));
    let best = lemma_greatest_score(open, score, domain.lower, domain.upper);
    assert forall|w: int| #[trigger]
        is_open(assignments, variable, values, w) implies !score(best).less_spec(score(w)) by {
        assert(open(w));
    }
    assert(is_open(assignments, variable, values, best));
    assert(is_best_open(assignments, variable, values, score(best)));
}

/// There is a greatest score of any values.
pub proof fn lemma_best_score_exists<N: OrderedNumber>(values: ValueModel<N>)
    ensures
        is_best_score(values, greatest_score(values)),
{
    if values.dom().is_empty() {
        assert(is_best_score(values, N::whole_spec(0)));
    } else {
        let active = |v: int| i32::MIN <= v <= i32::MAX && values.contains_key(v as i32);
        let score = |v: int| activity_at(values, v).score();
        let v = choose|v: i32| values.dom().contains(v);
        assert(values.contains_key(v) && active(v as int));
        let best = lemma_greatest_score(active, score, i32::MIN as int, i32::MAX as int);
        assert forall|w: i32| #[trigger] values.contains_key(w) implies !score(best).less_spec(
            values[w].score(),
        ) by {
            assert(active(w as int));
        }
        assert(values.contains_key(best as i32));
        assert(is_best_score(values, score(best)));
    }
}

impl<N: OrderedNumber, BackupBrancher> CustomSearch<N, BackupBrancher> {
    /// The activities of the values of every variable.
    pub open spec fn values(&self) -> ValueModels<N> {
        self.var_val_activity@.map_values(|values: HashMap<i32, ValueActivity<N>>| values@)
    }

    /// The activities of the values together with the heap of the variables.
    pub open spec fn activities(&self) -> Activities<N> {
        Activities { values: self.values(), heap: self.heap@ }
    }

    /// The heap is consistent.
    pub open spec fn wf(&self) -> bool {
        self.heap.wf()
    }

    /// Nothing has happened yet.
    pub open spec fn is_new(&self) -> bool {
        &&& self.wf()
        &&& self.activities() == (Activities::<N> { values: Map::empty(), heap: HeapModel::empty() })
        &&& self.increment == N::whole_spec(1)
    }

    /// Creates a brancher that knows of no activity.
    pub fn new(backup_brancher: BackupBrancher) -> (r: Self)
        ensures
            r.is_new(),
            r.wf(),
            r.activities() == (Activities::<N> {
                values: Map::empty(),
                heap: HeapModel::empty(),
            }),
            r.increment == N::whole_spec(1),
            r.backup_brancher == backup_brancher,
            forall|assignments: AssignmentsModel| #[trigger]
                r.activities().settles(assignments),
    {
        let r = CustomSearch {
            backup_brancher,
            increment: N::whole(1),
            var_val_activity: HashMap::new(),
            heap: KeyValueHeap::new(),
        };
        assert(r.values() =~= Map::<u32, ValueModel<N>>::empty());
        proof {
            assert forall|assignments: AssignmentsModel| #[trigger]
                r.activities().settles(assignments) by {
                r.activities().lemma_settles_if_none_is_stuck(assignments);
            }
        }
        r
    }

    /// Makes sure that there is room for the activities of the values of `variable`.
    fn ensure_variable_entry(&mut self, variable: DomainId)
        ensures
            final(self).values() == old(self).values().insert(
                variable.id,
                old(self).activities().of(variable),
            ),
            *final(self) == (CustomSearch {
                var_val_activity: final(self).var_val_activity,
                ..*old(self)
            }),
    {
        if !self.var_val_activity.contains_key(&variable.id) {
            let _ = self.var_val_activity.insert(variable.id, HashMap::new());
        }
        assert(self.values() =~= old(self).values().insert(
            variable.id,
            old(self).activities().of(variable),
        ));
    }

    /// Makes sure that `variable` has an entry in the heap and is present.
    pub fn ensure_heap_entry(&mut self, variable: DomainId)
        requires
            old(self).wf(),
        ensures
            final(self).wf(),
            final(self).heap@ == with_entry(old(self).heap@, variable),
            *final(self) == (CustomSearch { heap: final(self).heap, ..*old(self) }),
    {
        self.heap.grow_to(variable, N::whole(0));
        self.heap.restore_key(variable);
    }

    /// Moves the value of `variable` in the heap to `new_value`.
    ///
    /// The difference to the current value is added, so that with rounding arithmetic the value
    /// may miss `new_value` by a rounding error. The variable does not overtake others that are
    /// as active.
    pub fn set_heap_value(&mut self, variable: DomainId, new_value: N)
        requires
            old(self).wf(),
        ensures
            final(self).wf(),
            final(self).heap@ == with_value(old(self).heap@, variable, new_value),
            final(self).heap.top() == Some(variable) ==> final(self).heap@.is_strict_max(
                variable.id as int,
            ),
            *final(self) == (CustomSearch { heap: final(self).heap, ..*old(self) }),
    {
        self.ensure_heap_entry(variable);
        self.heap.delete_key(variable);
        let current: N = self.heap.get_value(variable);
        self.heap.increment(variable, new_value.minus(current));
        let ghost without = self.heap;
        self.heap.restore_key(variable);
        assert(self.heap@ =~= with_value(old(self).heap@, variable, new_value));
        proof {
            without.lemma_view();
            let k = variable.id as int;
            if self.heap.top() == Some(variable) {
                if let Some(top) = without.top() {
                    let t = top.id as int;
                    assert forall|j: int| #[trigger]
                        self.heap@.present.contains(j) && j
                            != k implies self.heap@.values[j].less_spec(self.heap@.values[k]) by {
                        assert(without@.present.contains(j));
                        N::order_is_total(self.heap@.values[j], self.heap@.values[t]);
                        if self.heap@.values[j].less_spec(self.heap@.values[t]) {
                            N::order_is_transitive(
                                self.heap@.values[j],
                                self.heap@.values[t],
                                self.heap@.values[k],
                            );
                        }
                    }
                }
            }
        }
    }

    /// Returns the greater one of the activities in the two directions.
    pub fn value_score(activity: &ValueActivity<N>) -> (r: N)
        ensures
            r == activity.score(),
    {
        if activity.ge.less_than(activity.le) {
            activity.le
        } else {
            activity.ge
        }
    }

    /// Returns the kind of bound that is more active; a lower bound if neither is.
    pub fn preferred_predicate_type(activity: &ValueActivity<N>) -> (r: PredicateType)
        ensures
            r == (if activity.prefers_upper() {
                PredicateType::UpperBound
            } else {
                PredicateType::LowerBound
            }),
    {
        if activity.ge.less_than(activity.le) {
            PredicateType::UpperBound
        } else {
            PredicateType::LowerBound
        }
    }

    /// Returns the activity of `value`, which is zero if the value was never bumped.
    fn activity_or_zero(
        values: &HashMap<i32, ValueActivity<N>>,
        value: i32,
    ) -> (r: ValueActivity<N>)
        ensures
            r == activity_at(values@, value as int),
    {
        match values.get(&value) {
            Some(activity) => *activity,
            None => ValueActivity { ge: N::whole(0), le: N::whole(0) },
        }
    }

    /// Returns the greatest score of any of the values, or zero if there are none.
    fn best_score(values: &HashMap<i32, ValueActivity<N>>) -> (r: N)
        ensures
            is_best_score(values@, r),
    {
        let mut best: Option<N> = None;
        let ghost all = spec_values_iter(values).remaining();
        for activity in it: values.values()
            invariant
                it.seq() == all,
                best is None <==> it.index() == 0,
                best matches Some(score) ==> {
                    &&& exists|i: int|
                        0 <= i < it.index() && (#[trigger] it.seq()[i]).score() == score
                    &&& forall|i: int|
                        0 <= i < it.index() ==> !score.less_spec((#[trigger] it.seq()[i]).score())
                },
        {
            let score: N = Self::value_score(activity);
            let ghost previous = best;
            let replace: bool = match best {
                Some(current) => current.less_than(score),
                None => true,
            };
            proof {
                N::order_is_total(score, score);
                if previous is Some && replace {
                    assert forall|i: int|
                        0 <= i < it.index() implies !score.less_spec(
                        (#[trigger] it.seq()[i]).score(),
                    ) by {
                        N::order_is_total(score, it.seq()[i].score());
                        if score.less_spec(it.seq()[i].score()) {
                            N::order_is_transitive(
                                previous->0,
                                score,
                                it.seq()[i].score(),
                            );
                        }
                    }
                }
            }
            if replace {
                best = Some(score);
            }
        }
        proof {
            let scored = all.unref();
            assert(scored.to_set() == values@.values());
            assert forall|v: i32| #[trigger] values@.contains_key(v) implies exists|i: int|
                0 <= i < all.len() && *(#[trigger] all[i]) == values@[v] by {
                assert(values@.values().contains(values@[v]));
                assert(scored.contains(values@[v]));
                let i = scored.index_of(values@[v]);
                assert(*all[i] == values@[v]);
            }
            assert forall|i: int| 0 <= i < all.len() implies exists|v: i32| #[trigger]
                values@.contains_key(v) && values@[v] == *(#[trigger] all[i]) by {
                assert(scored[i] == *all[i]);
                assert(scored.to_set().contains(scored[i]));
            }
            assert(all.len() > 0 ==> scored.to_set().contains(scored[0]));
        }
        match best {
            Some(score) => score,
            None => N::whole(0),
        }
    }

    /// Moves the value of `variable` in the heap to the greatest score of its values.
    pub fn refresh_heap_value_from_activity(&mut self, variable: DomainId)
        requires
            old(self).wf(),
        ensures
            final(self).wf(),
            final(self).heap@ == old(self).activities().recovered(variable),
            *final(self) == (CustomSearch { heap: final(self).heap, ..*old(self) }),
    {
        let best: N = match self.var_val_activity.get(&variable.id) {
            Some(values) => Self::best_score(values),
            None => {
                self.ensure_heap_entry(variable);
                return ;
            },
        };
        proof {
            let values = self.activities().of(variable);
            lemma_best_score_is_unique(
                values,
                best,
                greatest_score(values),
            );
        }
        self.set_heap_value(variable, best);
    }

    /// Returns the greatest score of a value whose more active bound is left to decide.
    fn best_open_score(
        values: &HashMap<i32, ValueActivity<N>>,
        variable: DomainId,
        context: &SelectionContext,
    ) -> (r: Option<N>)
        requires
            context.wf(),
            knows(context@, variable),
        ensures
            match r {
                Some(score) => is_best_open(context@, variable, values@, score),
                None => !has_open(context@, variable, values@),
            },
    {
        let mut best_score: N = N::lowest();
        let mut found: bool = false;
        let ghost domain = domain_of(context@, variable);
        let upper: i64 = context.upper_bound(variable) as i64;
        let mut next: i64 = context.lower_bound(variable) as i64;
        assert(context@[variable.id as int].wf());
        while next <= upper
            invariant
                context.wf(),
                knows(context@, variable),
                domain == domain_of(context@, variable),
                i32::MIN <= domain.lower <= next <= upper + 1,
                upper == domain.upper <= i32::MAX,
                !found ==> best_score == N::lowest_spec(),
                found ==> exists|v: int|
                    v < next && #[trigger] is_open(context@, variable, values@, v)
                        && activity_at(values@, v).score() == best_score,
                forall|v: int|
                    v < next && #[trigger] is_open(context@, variable, values@, v)
                        ==> found && !best_score.less_spec(activity_at(values@, v).score()),
            decreases upper + 1 - next,
        {
            let value: i32 = next as i32;
            let activity: ValueActivity<N> = Self::activity_or_zero(values, value);
            let predicate: Predicate = Predicate::new(
                variable,
                Self::preferred_predicate_type(&activity),
                value,
            );
            let score: N = Self::value_score(&activity);
            if context.contains(variable, value) && !context.is_predicate_assigned(predicate)
                && best_score.less_than(score) {
                proof {
                    N::order_is_total(score, score);
                    N::lowest_is_lowest(best_score);
                    N::lowest_is_lowest(score);
                    N::order_is_total(N::lowest_spec(), score);
                    assert(is_open(context@, variable, values@, next as int));
                    assert forall|v: int|
                        v <= next && #[trigger] is_open(
                            context@,
                            variable,
                            values@,
                            v,
                        ) implies !score.less_spec(activity_at(values@, v).score()) by {
                        if v < next {
                            lemma_not_below_is_transitive_from_less(
                                score,
                                best_score,
                                activity_at(values@, v).score(),
                            );
                        }
                    }
                }
                best_score = score;
                found = true;
            } else {
                proof {
                    assert(is_open(context@, variable, values@, next as int) ==> {
                        &&& found
                        &&& !best_score.less_spec(score)
                    });
                }
            }
            next = next + 1;
        }
        if found {
            Some(best_score)
        } else {
            None
        }
    }

    /// Moves the value of `variable` in the heap to its best score that is left to decide, or
    /// takes it out of the heap if there is none.
    pub fn refresh_heap_value_from_context(
        &mut self,
        variable: DomainId,
        context: &SelectionContext,
    )
        requires
            old(self).wf(),
            context.wf(),
            old(self).values().contains_key(variable.id) ==> knows(context@, variable),
            variable.id < old(self).heap@.values.len() || old(self).values().contains_key(
                variable.id,
            ) && has_open(context@, variable, old(self).activities().of(variable)),
        ensures
            final(self).wf(),
            final(self).heap@ == old(self).activities().refreshed(context@, variable),
            final(self).heap.top() == Some(variable) ==> final(self).heap@.is_strict_max(
                variable.id as int,
            ),
            *final(self) == (CustomSearch { heap: final(self).heap, ..*old(self) }),
    {
        let best: Option<N> = match self.var_val_activity.get(&variable.id) {
            Some(values) => Self::best_open_score(values, variable, context),
            None => None,
        };
        match best {
            Some(score) => {
                proof {
                    let values = self.activities().of(variable);
                    lemma_best_open_is_unique(
                        context@,
                        variable,
                        values,
                        score,
                        greatest_open_score(context@, variable, values),
                    );
                }
                self.set_heap_value(variable, score);
            },
            None => {
                self.heap.delete_key(variable);
                proof {
                    self.heap.lemma_view();
                }
            },
        }
    }

    /// Returns the value of `variable` to branch on.
    fn choose_value(
        values: &HashMap<i32, ValueActivity<N>>,
        variable: DomainId,
        context: &SelectionContext,
    ) -> (r: i32)
        requires
            context.wf(),
            knows(context@, variable),
        ensures
            is_choice(values@, domain_of(context@, variable), r as int),
    {
        let ghost domain = domain_of(context@, variable);
        assert(context@[variable.id as int].wf());
        let upper: i64 = context.upper_bound(variable) as i64;
        let mut best_value: i32 = context.lower_bound(variable);
        let mut best_score: N = Self::value_score(&Self::activity_or_zero(values, best_value));
        let mut next: i64 = best_value as i64 + 1;
        proof {
            N::order_is_total(best_score, best_score);
        }
        while next <= upper
            invariant
                knows(context@, variable),
                domain == domain_of(context@, variable),
                i32::MIN <= domain.lower < next <= upper + 1,
                upper == domain.upper <= i32::MAX,
                best_value < next,
                best_score == activity_at(values@, best_value as int).score(),
                is_choice(
                    values@,
                    DomainModel { upper: (next - 1) as int, ..domain },
                    best_value as int,
                ),
            decreases upper + 1 - next,
        {
            let value: i32 = next as i32;
            let ghost seen = DomainModel { upper: (next - 1) as int, ..domain };
            let ghost seeing = DomainModel { upper: next as int, ..domain };
            proof {
                assert forall|w: int| #[trigger] seeing.has(w) implies seen.has(w) || w == next by {
                }
                assert forall|w: int| #[trigger] seen.has(w) implies seeing.has(w) && w < next by {
                }
            }
            if context.contains(variable, value) {
                let activity: ValueActivity<N> = Self::activity_or_zero(values, value);
                let score: N = Self::value_score(&activity);
                proof {
                    N::order_is_total(best_score, score);
                    N::order_is_total(score, score);
                    assert(seen.has(best_value as int));
                }
                if best_score.less_than(score) {
                    proof {
                        assert forall|w: int| #[trigger]
                            seen.has(w) implies !score.less_spec(activity_at(values@, w).score())
                            && activity_at(values@, w).score() != score by {
                            lemma_not_below_is_transitive_from_less(
                                score,
                                best_score,
                                activity_at(values@, w).score(),
                            );
                        }
                    }
                    best_score = score;
                    best_value = value;
                } else if !score.less_than(best_score) && Self::preferred_predicate_type(&activity)
                    == PredicateType::UpperBound {
                    best_value = value;
                }
            }
            proof {
                assert(is_choice(values@, seeing, best_value as int));
            }
            next = next + 1;
        }
        assert(DomainModel { upper: (next - 1) as int, ..domain } == domain);
        best_value
    }

    /// Increases the activity of a value in the given directions.
    pub fn bump_value_activity(
        &mut self,
        variable: DomainId,
        value: i32,
        bump_ge: bool,
        bump_le: bool,
    )
        requires
            old(self).wf(),
        ensures
            final(self).wf(),
            final(self).activities() == old(self).activities().bumped(
                old(self).increment,
                variable,
                value as int,
                (Direction { ge: bump_ge, le: bump_le }),
            ),
            *final(self) == (CustomSearch {
                var_val_activity: final(self).var_val_activity,
                heap: final(self).heap,
                ..*old(self)
            }),
    {
        let ghost before = self.activities();
        let ghost towards = Direction { ge: bump_ge, le: bump_le };
        self.ensure_variable_entry(variable);
        proof {
            assert(self.values().contains_key(variable.id));
            assert(self.values()[variable.id] == self.var_val_activity@[variable.id]@);
        }
        let ghost ensured = self.values();
        let mut values: HashMap<i32, ValueActivity<N>> = match self.var_val_activity.remove(
            &variable.id,
        ) {
            Some(values) => values,
            None => HashMap::new(),
        };
        assert(values@ == before.of(variable));
        let mut activity: ValueActivity<N> = Self::activity_or_zero(&values, value);
        if bump_ge {
            activity.ge = activity.ge.plus(self.increment);
        }
        if bump_le {
            activity.le = activity.le.plus(self.increment);
        }
        assert(activity == activity_at(before.of(variable), value as int).bumped(
            self.increment,
            towards,
        ));
        let _ = values.insert(value, activity);
        let _ = self.var_val_activity.insert(variable.id, values);
        proof {
            let bumped = before.of(variable).insert(value, activity);
            assert(self.values() =~= ensured.insert(variable.id, bumped));
            assert(self.values() =~= before.values.insert(variable.id, bumped));
        }

        let new_score: N = Self::value_score(&activity);
        self.ensure_heap_entry(variable);
        if self.heap.get_value(variable).less_than(new_score) {
            let ghost entry = self.heap@;
            self.set_heap_value(variable, new_score);
            assert(with_entry(entry, variable) =~= entry);
        }
        assert(self.activities() =~= before.bumped(
            self.increment,
            variable,
            value as int,
            towards,
        ));
    }

    /// Bumps the values from `start` to `end` that the domain of `variable` has.
    ///
    /// `before` are the activities from which the values of the domain below `start` have been
    /// bumped already.
    fn bump_values(
        &mut self,
        context: &SelectionContext,
        predicate: Predicate,
        start: i32,
        end: i32,
        bump_ge: bool,
        bump_le: bool,
        Ghost(before): Ghost<Activities<N>>,
    )
        requires
            old(self).wf(),
            context.wf(),
            knows(context@, predicate.domain),
            start <= end ==> domain_of(context@, predicate.domain).lower <= start,
            bump_ge || bump_le,
            forall|v: int|
                start <= v <= end ==> #[trigger] direction(predicate, v) == (Direction {
                    ge: bump_ge,
                    le: bump_le,
                }),
            old(self).activities() == before.bumped_up_to(
                old(self).increment,
                predicate,
                domain_of(context@, predicate.domain),
                start - 1,
            ),
        ensures
            final(self).wf(),
            final(self).activities() == before.bumped_up_to(
                old(self).increment,
                predicate,
                domain_of(context@, predicate.domain),
                if start <= end {
                    end as int
                } else {
                    start - 1
                },
            ),
            *final(self) == (CustomSearch {
                var_val_activity: final(self).var_val_activity,
                heap: final(self).heap,
                ..*old(self)
            }),
    {
        let variable: DomainId = predicate.get_domain();
        let mut next: i64 = start as i64;
        while next <= end as i64
            invariant
                self.wf(),
                context.wf(),
                variable == predicate.domain,
                knows(context@, variable),
                start <= end ==> domain_of(context@, variable).lower <= start,
                bump_ge || bump_le,
                forall|v: int|
                    start <= v <= end ==> #[trigger] direction(predicate, v) == (Direction {
                        ge: bump_ge,
                        le: bump_le,
                    }),
                start <= next,
                start <= end ==> next <= end + 1,
                start > end ==> next == start,
                self.activities() == before.bumped_up_to(
                    self.increment,
                    predicate,
                    domain_of(context@, variable),
                    next - 1,
                ),
                *self == (CustomSearch {
                    var_val_activity: self.var_val_activity,
                    heap: self.heap,
                    ..*old(self)
                }),
            decreases end + 1 - next,
        {
            let value: i32 = next as i32;
            assert(direction(predicate, next as int) == Direction { ge: bump_ge, le: bump_le });
            if context.contains(variable, value) {
                self.bump_value_activity(variable, value, bump_ge, bump_le);
            }
            next = next + 1;
        }
    }

    /// Bumps the values that `predicate`, which is part of a learned nogood, speaks of.
    pub fn learn_predicate(&mut self, predicate: Predicate, context: &SelectionContext)
        requires
            old(self).wf(),
            context.wf(),
            can_learn(context@, predicate),
        ensures
            final(self).wf(),
            final(self).activities() == old(self).activities().learned(
                old(self).increment,
                context@,
                predicate,
            ),
            *final(self) == (CustomSearch {
                var_val_activity: final(self).var_val_activity,
                heap: final(self).heap,
                ..*old(self)
            }),
    {
        let ghost before = self.activities();
        let ghost domain = domain_of(context@, predicate.domain);
        let ghost increment = self.increment;
        let variable: DomainId = predicate.get_domain();
        let value: i32 = predicate.get_right_hand_side();
        if predicate.is_equality_predicate() {
            self.bump_value_activity(variable, value, true, true);
            return ;
        }
        assert(context@[predicate.domain.id as int].wf());
        let lower: i32 = context.lower_bound(variable);
        let upper: i32 = context.upper_bound(variable);

        if predicate.is_lower_bound_predicate() {
            let start: i32 = if value > lower {
                value
            } else {
                lower
            };
            proof {
                before.lemma_nothing_between(
                    increment,
                    predicate,
                    domain,
                    lower - 1,
                    if start <= upper {
                        start - 1
                    } else {
                        upper as int
                    },
                );
                if start > upper {
                    before.lemma_nothing_between(
                        increment,
                        predicate,
                        domain,
                        upper as int,
                        start - 1,
                    );
                }
            }
            self.bump_values(context, predicate, start, upper, true, false, Ghost(before));
        } else if predicate.is_upper_bound_predicate() {
            let end: i32 = if value < upper {
                value
            } else {
                upper
            };
            self.bump_values(context, predicate, lower, end, false, true, Ghost(before));
            proof {
                before.lemma_nothing_between(
                    increment,
                    predicate,
                    domain,
                    if lower <= end {
                        end as int
                    } else {
                        lower - 1
                    },
                    upper as int,
                );
            }
        } else if predicate.is_not_equal_predicate() {
            let below: i32 = if value == i32::MIN {
                value
            } else {
                value - 1
            };
            let le_end: i32 = if below < upper {
                below
            } else {
                upper
            };
            self.bump_values(context, predicate, lower, le_end, false, true, Ghost(before));

            let above: i32 = if value == i32::MAX {
                value
            } else {
                value + 1
            };
            let ge_start: i32 = if above > lower {
                above
            } else {
                lower
            };
            proof {
                let done = if lower <= le_end {
                    le_end as int
                } else {
                    lower - 1
                };
                before.lemma_nothing_between(increment, predicate, domain, done, ge_start - 1);
            }
            self.bump_values(context, predicate, ge_start, upper, true, false, Ghost(before));
            proof {
                if ge_start > upper {
                    before.lemma_nothing_between(
                        increment,
                        predicate,
                        domain,
                        upper as int,
                        ge_start - 1,
                    );
                }
            }
        }
    }

    /// Looks at the variable at the top of the heap.
    ///
    /// If what to branch on for it is left to decide, that is the decision. If not, the variable
    /// is passed over: it is taken out of the heap, or moved down to its best score that is left
    /// to decide.
    pub fn examine_top(&mut self, context: &SelectionContext) -> (r: SearchStep)
        requires
            old(self).wf(),
            context.wf(),
            old(self).heap@.values.len() <= context@.len(),
        ensures
            final(self).wf(),
            final(self).heap@.values.len() == old(self).heap@.values.len(),
            match r {
                SearchStep::Decided(predicate) => {
                    let k = predicate.domain.id as int;
                    &&& old(self).heap.top() == Some(predicate.domain)
                    &&& old(self).heap@.is_max(k)
                    &&& old(self).activities().is_ready(context@, k)
                    &&& predicate == old(self).activities().proposal(context@, k)
                    &&& *final(self) == *old(self)
                },
                SearchStep::PassedOver => {
                    &&& old(self).heap.top() matches Some(variable)
                    &&& old(self).heap@.is_max(variable.id as int)
                    &&& !old(self).activities().is_ready(context@, variable.id as int)
                    &&& final(self).activities() == old(self).activities().passed(
                        context@,
                        variable.id as int,
                    )
                    &&& final(self).heap.top() == Some(variable)
                        ==> final(self).heap@.is_strict_max(variable.id as int)
                },
                SearchStep::Exhausted => {
                    &&& old(self).heap@.present.is_empty()
                    &&& *final(self) == *old(self)
                },
            },
            *final(self) == (CustomSearch { heap: final(self).heap, ..*old(self) }),
    {
        proof {
            self.heap.lemma_view();
        }
        let variable: DomainId = match self.heap.peek_max() {
            Some((variable, _)) => variable,
            None => {
                return SearchStep::Exhausted;
            },
        };
        let ghost k = variable.id as int;
        assert(domain_id(k) == variable);

        let predicate: Predicate = match self.propose(variable, context) {
            Some(predicate) => predicate,
            None => {
                let _ = self.heap.pop_max();
                proof {
                    self.heap.lemma_view();
                }
                return SearchStep::PassedOver;
            },
        };

        if context.is_predicate_assigned(predicate) {
            self.refresh_heap_value_from_context(variable, context);
            return SearchStep::PassedOver;
        }
        SearchStep::Decided(predicate)
    }

    /// Returns what to branch on for `variable`, whether it is assigned or not, or `None` if there
    /// is nothing to branch on.
    fn propose(&self, variable: DomainId, context: &SelectionContext) -> (r: Option<Predicate>)
        requires
            context.wf(),
            knows(context@, variable),
        ensures
            r == (if self.activities().is_idle(context@, variable.id as int) {
                None
            } else {
                Some(self.activities().proposal(context@, variable.id as int))
            }),
    {
        assert(domain_id(variable.id as int) == variable);
        if context.is_integer_fixed(variable) {
            return None;
        }
        match self.var_val_activity.get(&variable.id) {
            Some(values) => {
                let value: i32 = Self::choose_value(values, variable, context);
                proof {
                    let domain = domain_of(context@, variable);
                    lemma_choice_is_unique(values@, domain, value as int, choice(values@, domain));
                }
                let activity: ValueActivity<N> = Self::activity_or_zero(values, value);
                Some(Predicate::new(variable, Self::preferred_predicate_type(&activity), value))
            },
            None => None,
        }
    }

    /// Returns whether `variable` is stuck: the bound to branch on for it is assigned, although
    /// another one of its values has a bound that is left to decide.
    pub fn is_variable_stuck(&self, variable: DomainId, context: &SelectionContext) -> (r: bool)
        requires
            context.wf(),
            knows(context@, variable),
        ensures
            r == self.activities().is_stuck(context@, variable.id as int),
    {
        assert(domain_id(variable.id as int) == variable);
        match self.propose(variable, context) {
            Some(predicate) => {
                if !context.is_predicate_assigned(predicate) {
                    return false;
                }
                match self.var_val_activity.get(&variable.id) {
                    Some(values) => {
                        let best: Option<N> = Self::best_open_score(values, variable, context);
                        proof {
                            if let Some(score) = best {
                                assert(is_best_open(context@, variable, values@, score));
                            }
                        }
                        best.is_some()
                    },
                    None => false,
                }
            },
            None => false,
        }
    }

    /// Returns whether no variable in the heap is stuck, so that a decision can be asked for as far
    /// as this brancher is concerned.
    pub fn has_no_stuck_variable(&self, context: &SelectionContext) -> (r: bool)
        requires
            self.wf(),
            context.wf(),
            self.heap@.values.len() <= context@.len(),
        ensures
            r == forall|k: int| #[trigger]
                self.heap@.present.contains(k) ==> !self.activities().is_stuck(context@, k),
            r ==> self.activities().settles(context@),
    {
        proof {
            self.heap.lemma_view();
        }
        let mut i: usize = 0;
        while i < self.heap.len()
            invariant
                i <= self.heap@.values.len(),
                self.wf(),
                context.wf(),
                self.heap@.values.len() <= context@.len(),
                context@.len() <= 0x1_0000_0000,
                forall|k: int|
                    0 <= k < i && #[trigger] self.heap@.present.contains(k)
                        ==> !self.activities().is_stuck(context@, k),
            decreases self.heap@.values.len() - i,
        {
            let variable: DomainId = DomainId { id: i as u32 };
            if self.heap.is_key_present(variable) && self.is_variable_stuck(variable, context) {
                assert(self.heap@.present.contains(i as int));
                return false;
            }
            i = i + 1;
        }
        proof {
            self.activities().lemma_settles_if_none_is_stuck(context@);
        }
        true
    }
}

impl<N: OrderedNumber, BackupBrancher: Brancher> Brancher for CustomSearch<N, BackupBrancher> {
    open spec fn can_decide(&self, assignments: AssignmentsModel) -> bool {
        &&& self.wf()
        &&& self.heap@.values.len() <= assignments.len()
        &&& self.activities().settles(assignments)
        &&& self.backup_brancher.can_decide(assignments)
    }

    open spec fn decides(
        before: Self,
        assignments: AssignmentsModel,
        decision: Option<Predicate>,
        after: Self,
    ) -> bool {
        &&& after.wf()
        &&& after.heap@.values.len() == before.heap@.values.len()
        &&& exists|variables: Seq<int>|
            {
                &&& #[trigger] before.activities().passes(assignments, variables)
                &&& after.activities() == before.activities().passed_all(assignments, variables)
                &&& !after.heap@.present.is_empty() ==> (decision matches Some(predicate)
                    && after.heap@.can_be_next(
                    last_passed(variables),
                    predicate.domain.id as int,
                ))
            }
        &&& if after.heap@.present.is_empty() {
            BackupBrancher::decides(
                before.backup_brancher,
                assignments,
                decision,
                after.backup_brancher,
            )
        } else {
            &&& decision matches Some(predicate)
            &&& after.activities().is_ready(assignments, predicate.domain.id as int)
            &&& predicate == after.activities().proposal(assignments, predicate.domain.id as int)
            &&& after.backup_brancher == before.backup_brancher
        }
        &&& after == CustomSearch {
            heap: after.heap,
            backup_brancher: after.backup_brancher,
            ..before
        }
    }

    open spec fn accepts(&self, notification: Notification) -> bool {
        &&& match notification {
            Notification::UnassignInteger(_, _) => self.wf(),
            Notification::LearnedNogood(predicates, assignments) => {
                self.wf() && can_learn_all(assignments, predicates)
            },
            _ => true,
        }
        &&& self.backup_brancher.accepts(notification)
    }

    open spec fn reacts(before: Self, notification: Notification, after: Self) -> bool {
        &&& match notification {
            Notification::UnassignInteger(variable, _) => {
                &&& after.wf()
                &&& after.heap@ == before.activities().recovered(variable)
                &&& after == CustomSearch {
                    heap: after.heap,
                    backup_brancher: after.backup_brancher,
                    ..before
                }
            },
            Notification::LearnedNogood(predicates, assignments) => {
                &&& after.wf()
                &&& after.activities() == before.activities().learned_all(
                    before.increment,
                    assignments,
                    predicates,
                )
                &&& after == CustomSearch {
                    var_val_activity: after.var_val_activity,
                    heap: after.heap,
                    backup_brancher: after.backup_brancher,
                    ..before
                }
            },
            _ => after == CustomSearch { backup_brancher: after.backup_brancher, ..before },
        }
        &&& BackupBrancher::reacts(before.backup_brancher, notification, after.backup_brancher)
    }

    open spec fn judges_restart(before: Self, answer: bool, after: Self) -> bool {
        !answer && after == before
    }

    open spec fn events(&self) -> Seq<BrancherEvent> {
        seq![
            BrancherEvent::Solution,
            BrancherEvent::Conflict,
            BrancherEvent::Backtrack,
            BrancherEvent::Synchronise,
            BrancherEvent::AppearanceInConflictPredicate,
            BrancherEvent::LearnedNogood,
        ] + self.backup_brancher.events()
    }

    open spec fn logged(&self, prefix: Seq<&'static str>) -> Seq<
        (Seq<&'static str>, SearchStatistics),
    > {
        self.backup_brancher.logged(prefix)
    }

    fn next_decision(&mut self, context: &SelectionContext) -> (r: Option<Predicate>) {
        let ghost start = self.activities();
        let ghost mut steps: nat = choose|steps: nat| #[trigger]
            start.settles_within(context@, None, steps);
        let ghost mut variables: Seq<int> = Seq::empty();
        loop
            invariant
                self.wf(),
                context.wf(),
                self.heap@.values.len() == old(self).heap@.values.len(),
                self.heap@.values.len() <= context@.len(),
                self.backup_brancher.can_decide(context@),
                start == old(self).activities(),
                start.passes(context@, variables),
                self.activities() == start.passed_all(context@, variables),
                self.activities().settles_within(context@, last_passed(variables), steps),
                last_passed(variables) matches Some(held) ==> (self.heap.top() matches Some(top)
                    ==> top.id == held ==> self.heap@.is_strict_max(held)),
                *self == (CustomSearch { heap: self.heap, ..*old(self) }),
            decreases steps,
        {
            let ghost reached = self.activities();
            let ghost top = self.heap.top();
            match self.examine_top(context) {
                SearchStep::Decided(predicate) => {
                    return Some(predicate);
                },
                SearchStep::PassedOver => {
                    proof {
                        let k = top->0.id as int;
                        assert(reached.heap.can_be_next(last_passed(variables), k));
                        start.lemma_one_more_passed(context@, variables, k);
                        variables = variables.push(k);
                        assert(last_passed(variables) == Some(k));
                        steps = (steps - 1) as nat;
                    }
                },
                SearchStep::Exhausted => {
                    let decision: Option<Predicate> = self.backup_brancher.next_decision(context);
                    assert(self.activities() == reached);
                    return decision;
                },
            }
        }
    }

    fn log_statistics(&self, statistic_logger: StatisticLogger) -> Vec<LoggedStatistics> {
        self.backup_brancher.log_statistics(statistic_logger)
    }

    fn on_backtrack(&mut self) {
        self.backup_brancher.on_backtrack();
    }

    fn synchronise(&mut self, context: &SelectionContext) {
        self.backup_brancher.synchronise(context);
    }

    fn on_conflict(&mut self) {
        self.backup_brancher.on_conflict();
    }

    fn on_solution(&mut self, solution: SolutionReference) {
        self.backup_brancher.on_solution(solution);
    }

    fn on_appearance_in_conflict_predicate(&mut self, predicate: Predicate) {
        self.backup_brancher.on_appearance_in_conflict_predicate(predicate);
    }

    fn on_restart(&mut self) {
        self.backup_brancher.on_restart();
    }

    fn on_unassign_integer(&mut self, variable: DomainId, value: i32) {
        self.refresh_heap_value_from_activity(variable);
        self.backup_brancher.on_unassign_integer(variable, value);
    }

    fn is_restart_pointless(&mut self) -> bool {
        false
    }

    fn subscribe_to_events(&self) -> (r: Vec<BrancherEvent>) {
        let mut r: Vec<BrancherEvent> = Vec::new();
        r.push(BrancherEvent::Solution);
        r.push(BrancherEvent::Conflict);
        r.push(BrancherEvent::Backtrack);
        r.push(BrancherEvent::Synchronise);
        r.push(BrancherEvent::AppearanceInConflictPredicate);
        r.push(BrancherEvent::LearnedNogood);
        let mut others: Vec<BrancherEvent> = self.backup_brancher.subscribe_to_events();
        r.append(&mut others);
        assert(r@ =~= self.events());
        r
    }

    fn on_learned_nogood(&mut self, learned_nogood: &LearnedNogood, context: &SelectionContext) {
        let ghost start = self.activities();
        let ghost predicates = learned_nogood.predicates@;
        let mut i: usize = 0;
        while i < learned_nogood.predicates.len()
            invariant
                i <= predicates.len(),
                predicates == learned_nogood.predicates@,
                self.wf(),
                context.wf(),
                can_learn_all(context@, predicates),
                start == old(self).activities(),
                self.activities() == start.learned_all(
                    self.increment,
                    context@,
                    predicates.take(i as int),
                ),
                *self == (CustomSearch {
                    var_val_activity: self.var_val_activity,
                    heap: self.heap,
                    ..*old(self)
                }),
            decreases predicates.len() - i,
        {
            self.learn_predicate(learned_nogood.predicates[i], context);
            assert(predicates.take(i + 1).drop_last() =~= predicates.take(i as int));
            i = i + 1;
        }
        assert(predicates.take(i as int) =~= predicates);
        let ghost learned = self.activities();
        self.backup_brancher.on_learned_nogood(learned_nogood, context);
        assert(self.activities() == learned);
    }
}

impl<N: OrderedNumber> Activities<N> {
    /// One more variable comes up and is passed over.
    proof fn lemma_one_more_passed(
        self,
        assignments: AssignmentsModel,
        variables: Seq<int>,
        k: int,
    )
        requires
            self.passes(assignments, variables),
            self.passed_all(assignments, variables).heap.can_be_next(last_passed(variables), k),
            !self.passed_all(assignments, variables).is_ready(assignments, k),
        ensures
            self.passes(assignments, variables.push(k)),
            self.passed_all(assignments, variables.push(k)) == self.passed_all(
                assignments,
                variables,
            ).passed(assignments, k),
    {
        let longer = variables.push(k);
        assert(longer.drop_last() =~= variables);
        assert forall|i: int| 0 <= i < longer.len() implies {
            let reached = self.passed_all(assignments, longer.take(i));
            &&& reached.heap.can_be_next(last_passed(longer.take(i)), #[trigger] longer[i])
            &&& !reached.is_ready(assignments, longer[i])
        } by {
            if i < variables.len() {
                assert(longer.take(i) =~= variables.take(i));
                assert(longer[i] == variables[i]);
            } else {
                assert(longer.take(i) =~= variables);
            }
        }
    }
}

impl<N: OrderedNumber> Activities<N> {
    /// Values that are bumped in no direction, or that the domain does not have, change nothing.
    proof fn lemma_nothing_between(
        self,
        increment: N,
        predicate: Predicate,
        domain: DomainModel,
        from: int,
        to: int,
    )
        requires
            domain.lower - 1 <= from <= to,
            forall|v: int|
                from < v <= to && domain.has(v) ==> !(#[trigger] direction(predicate, v)).ge
                    && !direction(predicate, v).le,
        ensures
            self.bumped_up_to(increment, predicate, domain, to) == self.bumped_up_to(
                increment,
                predicate,
                domain,
                from,
            ),
        decreases to - from,
    {
        if from < to {
            self.lemma_nothing_between(increment, predicate, domain, from, to - 1);
            assert(!direction(predicate, to).ge || !domain.has(to));
        }
    }
}

/// What is above something that `b` is not below is above it too.
proof fn lemma_not_below_is_transitive_from_less<N: OrderedNumber>(above: N, a: N, b: N)
    requires
        a.less_spec(above),
        !a.less_spec(b),
    ensures
        !above.less_spec(b),
        b != above,
{
    if above.less_spec(b) {
        N::order_is_transitive(a, above, b);
    }
}

impl<N: OrderedNumber> Activities<N> {
    /// Whether the bound to branch on for variable `k` is assigned although another one of its
    /// values has a bound that is left to decide.
    pub open spec fn is_stuck(self, assignments: AssignmentsModel, k: int) -> bool {
        &&& !self.is_idle(assignments, k)
        &&& !self.is_ready(assignments, k)
        &&& has_open(assignments, domain_id(k), self.of(domain_id(k)))
    }

    /// The search settles if no variable is stuck.
    pub proof fn lemma_settles_if_none_is_stuck(self, assignments: AssignmentsModel)
        requires
            self.heap.wf(),
            self.heap.values.len() <= 0x1_0000_0000,
            forall|k: int| #[trigger]
                self.heap.present.contains(k) ==> !self.is_stuck(assignments, k),
        ensures
            self.settles(assignments),
    {
        self.lemma_settles_by_emptying(assignments, None);
    }

    proof fn lemma_settles_by_emptying(self, assignments: AssignmentsModel, held: Option<int>)
        requires
            self.heap.wf(),
            self.heap.values.len() <= 0x1_0000_0000,
            forall|k: int| #[trigger]
                self.heap.present.contains(k) ==> !self.is_stuck(assignments, k),
        ensures
            self.settles_within(assignments, held, self.heap.present.len()),
        decreases self.heap.present.len(),
    {
        assert forall|k: int| #[trigger]
            self.heap.can_be_next(held, k) implies self.is_ready(assignments, k)
            || self.heap.present.len() > 0 && self.passed(assignments, k).settles_within(
            assignments,
            Some(k),
            (self.heap.present.len() - 1) as nat,
        ) by {
            assert(self.heap.present.contains(k));
            if !self.is_ready(assignments, k) {
                let next = self.passed(assignments, k);
                assert(domain_id(k).id == k);
                assert(next.heap.present =~= self.heap.present.remove(k));
                assert forall|j: int| #[trigger] next.heap.present.contains(j) implies !next
                    .is_stuck(assignments, j) by {
                    assert(self.heap.present.contains(j));
                }
                next.lemma_settles_by_emptying(assignments, Some(k));
            }
        }
    }

    /// The search settles if some variable has a bound left to branch on, and every stuck variable
    /// is below it in the heap or moves below it when it is passed over.
    pub proof fn lemma_settles_at(self, assignments: AssignmentsModel, target: int)
        requires
            self.heap.wf(),
            self.heap.values.len() <= 0x1_0000_0000,
            self.heap.present.contains(target),
            self.is_ready(assignments, target),
            forall|k: int| #[trigger]
                self.heap.present.contains(k) && self.is_stuck(assignments, k)
                    ==> self.heap.values[k].less_spec(self.heap.values[target])
                    || self.passed(assignments, k).heap.values[k].less_spec(
                    self.heap.values[target],
                ),
        ensures
            self.settles(assignments),
    {
        let rivals = self.heap.present.filter(
            |k: int| !self.heap.values[k].less_spec(self.heap.values[target]),
        );
        self.lemma_settles_at_within(assignments, None, target, rivals);
    }

    proof fn lemma_settles_at_within(
        self,
        assignments: AssignmentsModel,
        held: Option<int>,
        target: int,
        rivals: Set<int>,
    )
        requires
            self.heap.wf(),
            self.heap.values.len() <= 0x1_0000_0000,
            self.heap.present.contains(target),
            self.is_ready(assignments, target),
            forall|k: int| #[trigger]
                self.heap.present.contains(k) && self.is_stuck(assignments, k)
                    ==> self.heap.values[k].less_spec(self.heap.values[target])
                    || self.passed(assignments, k).heap.values[k].less_spec(
                    self.heap.values[target],
                ),
            rivals == self.heap.present.filter(
                |k: int| !self.heap.values[k].less_spec(self.heap.values[target]),
            ),
        ensures
            self.settles_within(assignments, held, rivals.len()),
        decreases rivals.len(),
    {
        assert(rivals.subset_of(self.heap.present));
        vstd::set_lib::lemma_set_subset_finite(self.heap.present, rivals);
        assert forall|k: int| #[trigger]
            self.heap.can_be_next(held, k) implies self.is_ready(assignments, k) || rivals.len() > 0
            && self.passed(assignments, k).settles_within(
            assignments,
            Some(k),
            (rivals.len() - 1) as nat,
        ) by {
            assert(self.heap.present.contains(k));
            if !self.is_ready(assignments, k) {
                assert(rivals.contains(k));
                let next = self.passed(assignments, k);
                assert(domain_id(k).id == k);
                assert(next.heap.values.len() == self.heap.values.len());
                assert forall|j: int| j != k && 0 <= j < self.heap.values.len() implies #[trigger]
                    next.heap.values[j] == self.heap.values[j] && next.heap.present.contains(j)
                    == self.heap.present.contains(j) by {
                }
                assert(next.heap.present.contains(k) ==> self.is_stuck(assignments, k));
                assert(next.heap.present.finite());
                assert forall|j: int| #[trigger]
                    next.heap.present.contains(j) && next.is_stuck(
                        assignments,
                        j,
                    ) implies next.heap.values[j].less_spec(next.heap.values[target])
                    || next.passed(assignments, j).heap.values[j].less_spec(
                    next.heap.values[target],
                ) by {
                    assert(self.is_stuck(assignments, j));
                    assert(self.heap.present.contains(j));
                    assert(domain_id(j).id == j);
                    assert(next.heap.values[j] == self.heap.values[j] || j == k);
                }
                assert(rivals.remove(k) =~= next.heap.present.filter(
                    |j: int| !next.heap.values[j].less_spec(next.heap.values[target]),
                ));
                next.lemma_settles_at_within(assignments, Some(k), target, rivals.remove(k));
            }
        }
    }

    /// Where in the heap variable `k`, which is at `current`, is moved when it is passed over.
    pub open spec fn moved_to(self, assignments: AssignmentsModel, k: int, current: N) -> N {
        let best = greatest_open_score(assignments, domain_id(k), self.of(domain_id(k)));
        current.plus_spec(best.minus_spec(current))
    }

    /// The search settles if some variable has a bound left to branch on, and the only stuck
    /// variable moves no higher than it.
    pub proof fn lemma_settles_past(
        self,
        assignments: AssignmentsModel,
        target: int,
        stuck: int,
    )
        requires
            self.heap.wf(),
            self.heap.values.len() <= 0x1_0000_0000,
            self.heap.present.contains(target),
            self.is_ready(assignments, target),
            forall|k: int| #[trigger]
                self.heap.present.contains(k) && k != stuck ==> !self.is_stuck(assignments, k),
            0 <= stuck < self.heap.values.len(),
            self.is_stuck(assignments, stuck),
            forall|current: N|
                !self.heap.values[target].less_spec(
                    #[trigger] self.moved_to(assignments, stuck, current),
                ),
        ensures
            self.settles(assignments),
    {
        let others = self.heap.present.filter(
            |k: int| k != stuck && !self.is_ready(assignments, k),
        );
        self.lemma_settles_past_within(
            assignments,
            None,
            target,
            stuck,
            others,
            2 * others.len() + 1,
        );
    }

    proof fn lemma_settles_past_within(
        self,
        assignments: AssignmentsModel,
        held: Option<int>,
        target: int,
        stuck: int,
        others: Set<int>,
        steps: nat,
    )
        requires
            self.heap.wf(),
            self.heap.values.len() <= 0x1_0000_0000,
            self.heap.present.contains(target),
            self.is_ready(assignments, target),
            forall|k: int| #[trigger]
                self.heap.present.contains(k) && k != stuck ==> !self.is_stuck(assignments, k),
            0 <= stuck < self.heap.values.len(),
            self.is_stuck(assignments, stuck),
            forall|current: N|
                !self.heap.values[target].less_spec(
                    #[trigger] self.moved_to(assignments, stuck, current),
                ),
            others == self.heap.present.filter(
                |k: int| k != stuck && !self.is_ready(assignments, k),
            ),
            steps >= 2 * others.len() + 1 || held == Some(stuck) && steps >= 2 * others.len()
                && !self.heap.values[target].less_spec(self.heap.values[stuck]),
        ensures
            self.settles_within(assignments, held, steps),
        decreases steps,
    {
        assert(others.subset_of(self.heap.present));
        vstd::set_lib::lemma_set_subset_finite(self.heap.present, others);
        assert(domain_id(stuck).id == stuck);
        assert forall|k: int| #[trigger]
            self.heap.can_be_next(held, k) implies self.is_ready(assignments, k) || steps > 0
            && self.passed(assignments, k).settles_within(
            assignments,
            Some(k),
            (steps - 1) as nat,
        ) by {
            assert(self.heap.present.contains(k));
            if !self.is_ready(assignments, k) {
                let next = self.passed(assignments, k);
                assert(domain_id(k).id == k);
                if k == stuck {
                    assert(held == Some(stuck) ==> self.heap.values[target].less_spec(
                        self.heap.values[stuck],
                    ));
                    let current = self.heap.values[stuck];
                    assert(next.heap.values[stuck] == self.moved_to(assignments, stuck, current));
                    assert(next.heap.present =~= self.heap.present);
                    assert(next.heap.values[target] == self.heap.values[target]);
                    assert forall|c: N|
                        !next.heap.values[target].less_spec(
                            #[trigger] next.moved_to(assignments, stuck, c),
                        ) by {
                        assert(next.moved_to(assignments, stuck, c) == self.moved_to(
                            assignments,
                            stuck,
                            c,
                        ));
                    }
                    assert(others =~= next.heap.present.filter(
                        |j: int| j != stuck && !next.is_ready(assignments, j),
                    ));
                    next.lemma_settles_past_within(
                        assignments,
                        Some(k),
                        target,
                        stuck,
                        others,
                        (steps - 1) as nat,
                    );
                } else {
                    assert(others.contains(k));
                    assert(next.heap.present =~= self.heap.present.remove(k));
                    assert(next.heap.values == self.heap.values);
                    assert forall|c: N|
                        !next.heap.values[target].less_spec(
                            #[trigger] next.moved_to(assignments, stuck, c),
                        ) by {
                        assert(next.moved_to(assignments, stuck, c) == self.moved_to(
                            assignments,
                            stuck,
                            c,
                        ));
                    }
                    assert(others.remove(k) =~= next.heap.present.filter(
                        |j: int| j != stuck && !next.is_ready(assignments, j),
                    ));
                    next.lemma_settles_past_within(
                        assignments,
                        Some(k),
                        target,
                        stuck,
                        others.remove(k),
                        (steps - 1) as nat,
                    );
                }
            }
        }
    }

    /// Passing over variables does not change the activities of any value.
    pub proof fn lemma_passing_keeps_values(
        self,
        assignments: AssignmentsModel,
        variables: Seq<int>,
    )
        ensures
            self.passed_all(assignments, variables).values == self.values,
        decreases variables.len(),
    {
        if variables.len() > 0 {
            self.lemma_passing_keeps_values(assignments, variables.drop_last());
        }
    }

    /// Learning a nogood with a bound or a disequality bumps exactly the values of the domain that
    /// the predicate gives a direction, in that direction, and no value of any other variable.
    pub proof fn lemma_learning_bumps_values(
        self,
        increment: N,
        assignments: AssignmentsModel,
        predicate: Predicate,
        v: int,
    )
        requires
            domains_wf(assignments),
            knows(assignments, predicate.domain),
            predicate.predicate_type !is Equal,
            i32::MIN <= v <= i32::MAX,
        ensures
            ({
                let after = self.learned(increment, assignments, predicate);
                let domain = domain_of(assignments, predicate.domain);
                &&& activity_at(after.of(predicate.domain), v) == if domain.has(v) {
                    activity_at(self.of(predicate.domain), v).bumped(
                        increment,
                        direction(predicate, v),
                    )
                } else {
                    activity_at(self.of(predicate.domain), v)
                }
                &&& forall|other: DomainId|
                    other != predicate.domain ==> #[trigger] after.of(other) == self.of(other)
            }),
    {
        let domain = domain_of(assignments, predicate.domain);
        assert(assignments[predicate.domain.id as int].wf());
        self.lemma_bumped_up_to(increment, predicate, domain, domain.upper, v);
    }

    proof fn lemma_bumped_up_to(
        self,
        increment: N,
        predicate: Predicate,
        domain: DomainModel,
        last: int,
        v: int,
    )
        requires
            i32::MIN <= v <= i32::MAX,
            i32::MIN <= domain.lower,
            last <= i32::MAX,
        ensures
            ({
                let after = self.bumped_up_to(increment, predicate, domain, last);
                &&& activity_at(after.of(predicate.domain), v) == if domain.has(v) && v <= last {
                    activity_at(self.of(predicate.domain), v).bumped(
                        increment,
                        direction(predicate, v),
                    )
                } else {
                    activity_at(self.of(predicate.domain), v)
                }
                &&& forall|other: DomainId|
                    other != predicate.domain ==> #[trigger] after.of(other) == self.of(other)
            }),
        decreases last - domain.lower + 1,
    {
        if last >= domain.lower {
            self.lemma_bumped_up_to(increment, predicate, domain, last - 1, v);
            let rest = self.bumped_up_to(increment, predicate, domain, last - 1);
            let towards = direction(predicate, last);
            if domain.has(last) && (towards.ge || towards.le) {
                let after = rest.bumped(increment, predicate.domain, last, towards);
                assert(v as i32 == last as i32 <==> v == last);
                assert(after.of(predicate.domain) == rest.of(predicate.domain).insert(
                    last as i32,
                    activity_at(rest.of(predicate.domain), last).bumped(increment, towards),
                ));
                assert forall|other: DomainId|
                    other != predicate.domain implies #[trigger] after.of(other) == self.of(
                    other,
                ) by {
                    assert(other.id != predicate.domain.id);
                    assert(rest.of(other) == self.of(other));
                }
            }
        }
    }
}

/// While a variable can be branched on, the decision is a bound that is not settled yet.
pub proof fn lemma_decision_is_undecided<N: OrderedNumber, B: Brancher>(
    before: CustomSearch<N, B>,
    assignments: AssignmentsModel,
    decision: Option<Predicate>,
    after: CustomSearch<N, B>,
)
    requires
        before.can_decide(assignments),
        CustomSearch::decides(before, assignments, decision, after),
        !after.heap@.present.is_empty(),
    ensures
        decision matches Some(predicate) && !is_assigned(assignments, predicate) && !is_fixed(
            assignments,
            predicate.domain,
        ),
{
}

/// A variable that may have become undecided takes part in the search again.
pub proof fn lemma_unassigning_wakes<N: OrderedNumber, B: Brancher>(
    before: CustomSearch<N, B>,
    variable: DomainId,
    value: int,
    after: CustomSearch<N, B>,
)
    requires
        CustomSearch::reacts(before, Notification::UnassignInteger(variable, value), after),
    ensures
        after.heap@.present.contains(variable.id as int),
{
}

/// If the backup knows all variables, the brancher has no decision exactly when every variable is
/// assigned.
pub proof fn lemma_decides_until_all_fixed<N: OrderedNumber>(
    before: CustomSearch<N, IndependentVariableValueBrancher>,
    assignments: AssignmentsModel,
    decision: Option<Predicate>,
    after: CustomSearch<N, IndependentVariableValueBrancher>,
)
    requires
        assignments.len() <= 0x1_0000_0000,
        before.can_decide(assignments),
        CustomSearch::decides(before, assignments, decision, after),
        forall|i: int|
            0 <= i < assignments.len()
                ==> before.backup_brancher.variable_selector.variables@.contains(
                #[trigger] domain_id(i),
            ),
    ensures
        decision is None <==> all_fixed(assignments),
{
    let variables = before.backup_brancher.variable_selector.variables@;
    after.heap.lemma_view();
    if all_fixed(assignments) {
        if decision is Some {
            let d = decision->0.domain;
            assert(domain_id(d.id as int) == d);
            if !after.heap@.present.is_empty() {
                assert(assignments[d.id as int].is_fixed());
            } else {
                let i = choose|i: int| #[trigger]
                    is_first_unfixed(variables, assignments, i) && i < variables.len();
                assert(knows(assignments, variables[i]));
                assert(assignments[variables[i].id as int].is_fixed());
            }
        }
    } else if decision is None {
        assert forall|i: int| 0 <= i < assignments.len() implies (
        #[trigger] assignments[i]).is_fixed() by {
            let position = variables.index_of(domain_id(i));
            assert(variables.contains(domain_id(i)));
            assert(is_fixed(assignments, variables[position]));
        }
    }
}

/// With fixed-point numbers, the value of a variable in the heap is moved exactly to where it is
/// meant to be, unless the difference is too large to be represented.
pub proof fn lemma_fixed_value_is_exact(
    heap: HeapModel<Fixed>,
    variable: DomainId,
    new_value: Fixed,
)
    requires
        i64::MIN <= new_value.units - with_entry(heap, variable).values[variable.id as int].units
            <= i64::MAX,
    ensures
        with_value(heap, variable, new_value).values[variable.id as int] == new_value,
{
}

/// Every notification leaves the brancher consistent.
pub proof fn lemma_stays_consistent<N: OrderedNumber, B: Brancher>(
    before: CustomSearch<N, B>,
    notification: Notification,
    after: CustomSearch<N, B>,
)
    requires
        before.wf(),
        CustomSearch::reacts(before, notification, after),
    ensures
        after.wf(),
{
}

/// Deciding does not change the activity of any value.
pub proof fn lemma_deciding_keeps_activities<N: OrderedNumber, B: Brancher>(
    before: CustomSearch<N, B>,
    assignments: AssignmentsModel,
    decision: Option<Predicate>,
    after: CustomSearch<N, B>,
)
    requires
        CustomSearch::decides(before, assignments, decision, after),
    ensures
        after.values() == before.values(),
{
}

impl<N: OrderedNumber> Activities<N> {
    /// Every variable with an active value is present in the heap, with the greatest score of its
    /// values.
    pub open spec fn holds_best_scores(self) -> bool {
        forall|x: u32| #[trigger]
            self.values.contains_key(x) ==> {
                &&& self.heap.present.contains(x as int)
                &&& x < self.heap.values.len()
                &&& !self.values[x].dom().is_empty()
                &&& is_best_score(self.values[x], self.heap.values[x as int])
            }
    }

    /// Every activity is a count, and the entries of variables without an active value are zero.
    pub open spec fn is_grounded(self) -> bool {
        &&& forall|x: u32, v: i32|
            self.values.contains_key(x) && #[trigger] self.values[x].contains_key(v) ==> {
                &&& is_count(self.values[x][v].ge)
                &&& is_count(self.values[x][v].le)
            }
        &&& forall|x: u32|
            x < self.heap.values.len() && !(#[trigger] self.values.contains_key(x))
                ==> self.heap.values[x as int] == N::whole_spec(0)
    }

    proof fn lemma_bump_holds_best(self, variable: DomainId, v: int, towards: Direction)
        requires
            self.holds_best_scores(),
            self.is_grounded(),
        ensures
            self.bumped(N::whole_spec(1), variable, v, towards).holds_best_scores(),
            self.bumped(N::whole_spec(1), variable, v, towards).is_grounded(),
    {
        let zero = N::whole_spec(0);
        let increment = N::whole_spec(1);
        let x = variable.id;
        let values = self.of(variable);
        let old_activity = activity_at(values, v);
        let activity = old_activity.bumped(increment, towards);
        let score = activity.score();
        let after = self.bumped(increment, variable, v, towards);
        let entry = with_entry(self.heap, variable);
        let current = entry.values[x as int];

        // The value's activities stay counts, and become no smaller in either direction.
        assert(tally(increment, 0) == zero);
        lemma_counts(old_activity.ge);
        lemma_counts(old_activity.le);
        lemma_counts(activity.ge);
        lemma_counts(activity.le);
        N::one_is_not_negative();
        N::sum_keeps_order(old_activity.ge, increment);
        N::sum_keeps_order(old_activity.le, increment);
        N::order_is_total(old_activity.ge, old_activity.ge);
        N::order_is_total(old_activity.le, old_activity.le);
        lemma_score_grows(old_activity, activity);

        // So the entry in the heap is a count too.
        if self.values.contains_key(x) {
            let w = choose|w: i32| #[trigger]
                values.contains_key(w) && values[w].score() == self.heap.values[x as int];
            assert(self.values[x].contains_key(w));
            assert(current == self.heap.values[x as int]);
        }
        assert(is_count(current));
        if current.less_spec(score) {
            N::counts_move_up_exactly(current, score);
        }
        assert(after.heap.values[x as int] == if current.less_spec(score) {
            score
        } else {
            current
        });
        N::order_is_total(current, score);
        N::order_is_total(score, score);

        let bumped = values.insert(v as i32, activity);
        assert(after.values[x] == bumped);
        assert(bumped.contains_key(v as i32));
        assert(bumped.dom().contains(v as i32));
        assert(is_best_score(bumped, after.heap.values[x as int])) by {
            let best = after.heap.values[x as int];
            if self.values.contains_key(x) {
                let w = choose|w: i32| #[trigger]
                    values.contains_key(w) && values[w].score() == current;
                if !current.less_spec(score) {
                    if w == v as i32 {
                        N::order_is_total(old_activity.score(), score);
                        assert(bumped[w].score() == best);
                    } else {
                        assert(bumped.contains_key(w) && bumped[w].score() == best);
                    }
                }
                assert forall|u: i32| #[trigger] bumped.contains_key(u) implies !best.less_spec(
                    bumped[u].score(),
                ) by {
                    if u != v as i32 {
                        assert(values.contains_key(u));
                        if current.less_spec(score) {
                            lemma_not_below_is_transitive_from_less(
                                score,
                                current,
                                values[u].score(),
                            );
                        }
                    }
                }
            } else {
                assert(current == zero);
                assert(best == score);
            }
            assert(bumped[v as i32].score() == score);
        }
        assert forall|y: u32| #[trigger] after.values.contains_key(y) implies {
            &&& after.heap.present.contains(y as int)
            &&& y < after.heap.values.len()
            &&& !after.values[y].dom().is_empty()
            &&& is_best_score(after.values[y], after.heap.values[y as int])
        } by {
            if y != x {
                assert(self.values.contains_key(y));
            }
        }
        assert forall|y: u32, u: i32|
            after.values.contains_key(y) && #[trigger] after.values[y].contains_key(u) implies {
            &&& is_count(after.values[y][u].ge)
            &&& is_count(after.values[y][u].le)
        } by {
            if y != x || u != v as i32 {
                assert(self.values.contains_key(y) && self.values[y].contains_key(u));
            }
        }
        assert forall|y: u32|
            y < after.heap.values.len() && !(#[trigger] after.values.contains_key(
                y,
            )) implies after.heap.values[y as int] == zero by {
            assert(!self.values.contains_key(y));
        }
    }

    proof fn lemma_learning_holds_best(
        self,
        assignments: AssignmentsModel,
        predicates: Seq<Predicate>,
    )
        requires
            self.holds_best_scores(),
            self.is_grounded(),
        ensures
            self.learned_all(N::whole_spec(1), assignments, predicates).holds_best_scores(),
            self.learned_all(N::whole_spec(1), assignments, predicates).is_grounded(),
        decreases predicates.len(),
    {
        if predicates.len() > 0 {
            self.lemma_learning_holds_best(assignments, predicates.drop_last());
            let before = self.learned_all(
                N::whole_spec(1),
                assignments,
                predicates.drop_last(),
            );
            let predicate = predicates.last();
            let domain = domain_of(assignments, predicate.domain);
            if predicate.predicate_type is Equal {
                before.lemma_bump_holds_best(
                    predicate.domain,
                    predicate.value as int,
                    Direction { ge: true, le: true },
                );
            } else {
                before.lemma_bumps_hold_best(predicate, domain, domain.upper);
            }
        }
    }

    proof fn lemma_bumps_hold_best(self, predicate: Predicate, domain: DomainModel, last: int)
        requires
            self.holds_best_scores(),
            self.is_grounded(),
        ensures
            self.bumped_up_to(N::whole_spec(1), predicate, domain, last).holds_best_scores(),
            self.bumped_up_to(N::whole_spec(1), predicate, domain, last).is_grounded(),
        decreases last - domain.lower + 1,
    {
        if last >= domain.lower {
            self.lemma_bumps_hold_best(predicate, domain, last - 1);
            let before = self.bumped_up_to(N::whole_spec(1), predicate, domain, last - 1);
            before.lemma_bump_holds_best(predicate.domain, last, direction(predicate, last));
        }
    }
}

/// A value that is no less active in either direction has no smaller score.
proof fn lemma_score_grows<N: OrderedNumber>(before: ValueActivity<N>, after: ValueActivity<N>)
    requires
        !after.ge.less_spec(before.ge),
        !after.le.less_spec(before.le),
    ensures
        !after.score().less_spec(before.score()),
{
    N::order_is_total(after.ge, after.le);
    if before.prefers_upper() && !after.prefers_upper() {
        lemma_not_below_is_transitive(after.ge, after.le, before.le);
    }
    if !before.prefers_upper() && after.prefers_upper() {
        lemma_not_below_is_transitive(after.le, after.ge, before.ge);
    }
}

/// Whether the brancher goes through the given states, from a new one, as it learns the given
/// nogoods, each under the given domains.
pub open spec fn is_learning_history<N: OrderedNumber, B: Brancher>(
    states: Seq<CustomSearch<N, B>>,
    nogoods: Seq<(Seq<Predicate>, AssignmentsModel)>,
) -> bool {
    &&& states.len() == nogoods.len() + 1
    &&& states[0].activities() == Activities::<N> { values: Map::empty(), heap: HeapModel::empty() }
    &&& states[0].increment == N::whole_spec(1)
    &&& forall|i: int|
        0 <= i < nogoods.len() ==> CustomSearch::reacts(
            states[i],
            Notification::LearnedNogood((#[trigger] nogoods[i]).0, nogoods[i].1),
            states[i + 1],
        )
}

/// As long as a new brancher has only learned nogoods, every variable with an active value is in
/// the heap with the score of its most active value, and the backup has learned each of the
/// nogoods once, in the same order.
pub proof fn lemma_heap_holds_best_scores<N: OrderedNumber, B: Brancher>(
    states: Seq<CustomSearch<N, B>>,
    nogoods: Seq<(Seq<Predicate>, AssignmentsModel)>,
    n: int,
)
    requires
        is_learning_history(states, nogoods),
        0 <= n <= nogoods.len(),
    ensures
        states[n].activities().holds_best_scores(),
        states[n].increment == N::whole_spec(1),
        forall|i: int|
            0 <= i < n ==> B::reacts(
                states[i].backup_brancher,
                Notification::LearnedNogood((#[trigger] nogoods[i]).0, nogoods[i].1),
                states[i + 1].backup_brancher,
            ),
{
    lemma_heap_stays_grounded(states, nogoods, n);
    assert forall|i: int| 0 <= i < n implies B::reacts(
        states[i].backup_brancher,
        Notification::LearnedNogood((#[trigger] nogoods[i]).0, nogoods[i].1),
        states[i + 1].backup_brancher,
    ) by {
        assert(CustomSearch::reacts(
            states[i],
            Notification::LearnedNogood(nogoods[i].0, nogoods[i].1),
            states[i + 1],
        ));
    }
}

proof fn lemma_heap_stays_grounded<N: OrderedNumber, B: Brancher>(
    states: Seq<CustomSearch<N, B>>,
    nogoods: Seq<(Seq<Predicate>, AssignmentsModel)>,
    n: int,
)
    requires
        is_learning_history(states, nogoods),
        0 <= n <= nogoods.len(),
    ensures
        states[n].activities().holds_best_scores(),
        states[n].activities().is_grounded(),
        states[n].increment == N::whole_spec(1),
    decreases n,
{
    if n > 0 {
        lemma_heap_stays_grounded(states, nogoods, n - 1);
        let (predicates, assignments) = nogoods[n - 1];
        assert(CustomSearch::reacts(
            states[n - 1],
            Notification::LearnedNogood(predicates, assignments),
            states[n],
        ));
        states[n - 1].activities().lemma_learning_holds_best(assignments, predicates);
    }
}

} // verus!
