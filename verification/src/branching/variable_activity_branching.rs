//! Branching on the variable that appears most in recent conflicts.

use crate::assignments::{
    all_fixed, domains_wf, is_assigned, is_fixed, Assignments, AssignmentsModel, SelectionContext,
    SolutionReference,
};
use crate::branching::brancher::{Brancher, BrancherEvent, LearnedNogood, Notification};
use crate::branching::dormant::{
    identifiers, lemma_identifiers_grow, lemma_put_to_sleep, lemma_restoring_brings_back_all,
    none_lost, restored_all,
};
use crate::branching::independent_variable_value_brancher::IndependentVariableValueBrancher;
use crate::branching::selection::{
    lemma_selection_is_undecided, InDomainMin, InDomainSplit, InputOrder,
};
use crate::containers::key_value_heap::{
    lemma_division_keeps_order, lemma_nothing_taken_out, lemma_one_more_taken_out,
    lemma_present_at_most_values, taken_out, HeapModel, KeyValueHeap,
};
use crate::number::{scales_below, OrderedNumber};
use crate::predicates::Predicate;
use crate::statistics::{LoggedStatistics, SearchStatistics, StatisticLogger};
use crate::variables::{domain_id, DomainId};
use vstd::prelude::*;

verus! {

/// A brancher that selects the variable with the greatest activity and splits its domain.
///
/// The activity of a variable grows when it appears in a conflict. Assigned variables are taken
/// out of the heap when they come up, and put back after the solver has synchronised.
#[derive(Debug)]
pub struct VariableActivitySearch<N, BackupBrancher> {
    /// Stores the activities of the variables.
    pub heap: KeyValueHeap<DomainId, N>,
    /// Assigned variables that were removed from the heap, restored after synchronisation.
    pub dormant_variables: Vec<DomainId>,
    /// Makes the decision when no variable in the heap is left to decide.
    pub backup_brancher: BackupBrancher,
    /// Selects the value once the variable has been chosen.
    pub value_selector: InDomainSplit,
    /// How much the activity of a variable grows when it appears in a conflict.
    pub increment: N,
    /// Once an activity reaches this value, all activities are divided by it.
    pub max_threshold: N,
    /// With every conflict, the increment is multiplied by one over this.
    pub decay_factor: N,
    /// Whether dormant variables are to be restored before the next decision.
    pub should_synchronise: bool,
    /// What this brancher has counted. It does not count how often it asked its backup.
    pub statistics: SearchStatistics,
}

/// The brancher that falls back on the order in which the variables were created.
pub type DefaultBrancher<N> = VariableActivitySearch<N, IndependentVariableValueBrancher>;

impl<N: OrderedNumber> DefaultBrancher<N> {
    /// Whether the backup assigns all variables, in the order in which they were created.
    pub open spec fn is_backed_over(&self, assignments: AssignmentsModel) -> bool {
        self.backup_brancher.variable_selector.variables@ == Seq::new(
            assignments.len(),
            |i: int| domain_id(i),
        )
    }

    /// Creates a brancher with the default parameters (1 for the increment, 10^100 for the
    /// threshold, 0.95 for the decay factor).
    ///
    /// If no variable is left to select, it switches to assigning the variables of `assignments`
    /// in order, each its least value.
    pub fn default_over_all_variables(assignments: &Assignments) -> (r: DefaultBrancher<N>)
        requires
            assignments.wf(),
        ensures
            r.is_new(),
            r.is_backed_over(assignments@),
            r.can_decide(assignments@),
            r.backup_brancher.variable_selector.variables@ == Seq::new(
                assignments@.len(),
                |i: int| domain_id(i),
            ),
    {
        VariableActivitySearch::new(
            IndependentVariableValueBrancher::new(
                InputOrder::new(assignments.get_domains()),
                InDomainMin,
            ),
        )
    }

    /// Adds a variable to those that the backup brancher assigns.
    pub fn add_domain(&mut self, domain: DomainId)
        ensures
            final(self).backup_brancher.variable_selector.variables@
                == old(self).backup_brancher.variable_selector.variables@.push(domain),
            *final(self) == (VariableActivitySearch {
                backup_brancher: final(self).backup_brancher,
                ..*old(self)
            }),
    {
        self.backup_brancher.variable_selector.add_domain(domain);
    }
}

impl<N: OrderedNumber, BackupBrancher> VariableActivitySearch<N, BackupBrancher> {
    /// The heap is consistent and no variable has been lost.
    pub open spec fn wf(&self) -> bool {
        &&& self.heap.wf()
        &&& none_lost(self.heap@, self.dormant_variables@)
    }

    /// Nothing has happened yet, and the parameters have their default values.
    pub open spec fn is_new(&self) -> bool {
        &&& self.wf()
        &&& self.heap@ == HeapModel::<N>::empty()
        &&& self.dormant_variables@ == Seq::<DomainId>::empty()
        &&& self.increment == N::whole_spec(1)
        &&& self.max_threshold == N::decimal_spec(1, 100)
        &&& self.decay_factor == N::decimal_spec(95, (-2) as i32)
        &&& !self.should_synchronise
        &&& self.statistics == SearchStatistics::zero()
    }

    /// The heap that is searched, in which the dormant variables have been restored if they are
    /// to be.
    pub open spec fn heap_to_search(&self) -> HeapModel<N> {
        if self.should_synchronise {
            restored_all(self.heap@, self.dormant_variables@)
        } else {
            self.heap@
        }
    }

    /// The heap in which `variable` has an entry and is present.
    pub open spec fn heap_with(self, variable: DomainId) -> HeapModel<N> {
        self.heap@.grown_to(variable.id as nat, N::whole_spec(0)).restored(variable.id as int)
    }

    /// Whether the activities have to be scaled down before `variable` is bumped.
    pub open spec fn must_rescale(self, variable: DomainId) -> bool {
        !self.heap_with(variable).values[variable.id as int].plus_spec(self.increment).less_spec(
            self.max_threshold,
        )
    }

    /// The increment with which `variable` is bumped.
    pub open spec fn increment_for(self, variable: DomainId) -> N {
        if self.must_rescale(variable) {
            self.increment.over_spec(self.max_threshold)
        } else {
            self.increment
        }
    }

    /// The heap after `variable` has been bumped.
    pub open spec fn bumped_heap(self, variable: DomainId) -> HeapModel<N> {
        let scaled = if self.must_rescale(variable) {
            self.heap_with(variable).divided(self.max_threshold)
        } else {
            self.heap_with(variable)
        };
        scaled.incremented(variable.id as int, self.increment_for(variable))
    }

    /// Passing over the assigned variables at the top of the heap `heap`, and adding them to
    /// `dormant`, leaves `self`.
    pub open spec fn passed_over(
        self,
        heap: HeapModel<N>,
        dormant: Seq<DomainId>,
        assignments: AssignmentsModel,
    ) -> bool {
        let passed = self.dormant_variables@.skip(dormant.len() as int);
        &&& dormant.is_prefix_of(self.dormant_variables@)
        &&& forall|i: int| 0 <= i < passed.len() ==> is_fixed(assignments, #[trigger] passed[i])
        &&& taken_out(heap, identifiers(passed), self.heap@)
    }

    /// Creates a brancher with the default parameters and the given backup.
    pub fn new(backup_brancher: BackupBrancher) -> (r: Self)
        ensures
            r.is_new(),
            r.backup_brancher == backup_brancher,
    {
        VariableActivitySearch {
            backup_brancher,
            dormant_variables: Vec::new(),
            value_selector: InDomainSplit,
            increment: N::whole(1),
            decay_factor: N::decimal(95, -2),
            max_threshold: N::decimal(1, 100),
            should_synchronise: false,
            heap: KeyValueHeap::new(),
            statistics: SearchStatistics::new(),
        }
    }

    /// Makes sure that `variable` has an entry in the heap.
    pub fn ensure_heap_entry(&mut self, variable: DomainId)
        requires
            old(self).heap.wf(),
        ensures
            final(self).heap.wf(),
            final(self).heap@ == old(self).heap@.grown_to(
                variable.id as nat,
                N::whole_spec(0),
            ),
            *final(self) == (VariableActivitySearch { heap: final(self).heap, ..*old(self) }),
    {
        self.heap.grow_to(variable, N::whole(0));
    }

    /// Increases the activity of `variable`, scaling all activities down first if it would reach
    /// the threshold.
    pub fn bump_activity(&mut self, variable: DomainId)
        requires
            old(self).wf(),
            old(self).statistics.num_predicates_added < usize::MAX,
        ensures
            final(self).wf(),
            final(self).heap@ == old(self).bumped_heap(variable),
            final(self).increment == old(self).increment_for(variable),
            final(self).statistics == old(self).statistics.with_added(1),
            *final(self) == (VariableActivitySearch {
                heap: final(self).heap,
                increment: final(self).increment,
                statistics: final(self).statistics,
                ..*old(self)
            }),
    {
        self.statistics.num_predicates_added = self.statistics.num_predicates_added + 1;
        self.ensure_heap_entry(variable);
        self.heap.restore_key(variable);

        let activity: N = self.heap.get_value(variable);
        if !activity.plus(self.increment).less_than(self.max_threshold) {
            self.heap.divide_values(self.max_threshold);
            self.increment = self.increment.over(self.max_threshold);
        }

        self.heap.increment(variable, self.increment);
    }

    /// Puts all dormant variables back into the heap.
    pub fn restore_dormant_variables(&mut self)
        requires
            old(self).wf(),
        ensures
            final(self).wf(),
            final(self).heap@ == restored_all(old(self).heap@, old(self).dormant_variables@),
            final(self).dormant_variables@ == Seq::<DomainId>::empty(),
            *final(self) == (VariableActivitySearch {
                heap: final(self).heap,
                dormant_variables: final(self).dormant_variables,
                ..*old(self)
            }),
    {
        let mut dormant: Vec<DomainId> = Vec::new();
        std::mem::swap(&mut dormant, &mut self.dormant_variables);
        let mut i: usize = 0;
        while i < dormant.len()
            invariant
                i <= dormant@.len(),
                dormant@ == old(self).dormant_variables@,
                none_lost(old(self).heap@, dormant@),
                self.heap.wf(),
                self.heap@.values == old(self).heap@.values,
                self.heap@ == restored_all(old(self).heap@, dormant@.take(i as int)),
                self.dormant_variables@ == Seq::<DomainId>::empty(),
                *self == (VariableActivitySearch {
                    heap: self.heap,
                    dormant_variables: self.dormant_variables,
                    ..*old(self)
                }),
            decreases dormant@.len() - i,
        {
            let variable: DomainId = dormant[i];
            assert(dormant@[i as int].id < self.heap@.values.len());
            self.ensure_heap_entry(variable);
            self.heap.restore_key(variable);
            proof {
                lemma_identifiers_grow(dormant@, i as int);
                assert(self.heap@ =~= restored_all(old(self).heap@, dormant@.take(i + 1)));
            }
            i = i + 1;
        }
        assert(dormant@.take(i as int) =~= dormant@);
    }

    /// Returns an unassigned variable of greatest activity, after taking the assigned variables
    /// above it out of the heap.
    pub fn next_candidate_variable(&mut self, context: &SelectionContext) -> (r: Option<DomainId>)
        requires
            old(self).wf(),
            old(self).heap@.values.len() <= context@.len(),
            old(self).statistics.has_room_for_encounters(old(self).heap@.values.len()),
        ensures
            final(self).wf(),
            final(self).passed_over(old(self).heap@, old(self).dormant_variables@, context@),
            match r {
                Some(variable) => final(self).heap@.is_max(variable.id as int) && !is_fixed(
                    context@,
                    variable,
                ),
                None => final(self).heap@.present.is_empty(),
            },
            final(self).statistics == old(self).statistics.with_encounters(
                (final(self).dormant_variables@.len() - old(self).dormant_variables@.len()) as nat,
            ),
            *final(self) == (VariableActivitySearch {
                heap: final(self).heap,
                dormant_variables: final(self).dormant_variables,
                statistics: final(self).statistics,
                ..*old(self)
            }),
    {
        let ghost dormant = self.dormant_variables@;
        let ghost mut passed: Seq<DomainId> = Seq::empty();
        proof {
            lemma_nothing_taken_out(self.heap@);
            assert(identifiers(passed) =~= Seq::<int>::empty());
            self.heap.lemma_view();
            lemma_present_at_most_values(self.heap@);
        }
        loop
            invariant
                self.wf(),
                old(self).heap@.wf(),
                old(self).heap@.present.len() <= old(self).heap@.values.len(),
                old(self).heap@.values.len() <= context@.len(),
                old(self).statistics.has_room_for_encounters(old(self).heap@.values.len()),
                self.dormant_variables@ == dormant + passed,
                dormant == old(self).dormant_variables@,
                forall|i: int|
                    0 <= i < passed.len() ==> is_fixed(context@, #[trigger] passed[i]),
                taken_out(old(self).heap@, identifiers(passed), self.heap@),
                passed.len() + self.heap@.present.len() == old(self).heap@.present.len(),
                self.statistics == old(self).statistics.with_encounters(passed.len()),
                *self == (VariableActivitySearch {
                    heap: self.heap,
                    dormant_variables: self.dormant_variables,
                    statistics: self.statistics,
                    ..*old(self)
                }),
            decreases self.heap@.present.len(),
        {
            proof {
                self.heap.lemma_view();
                assert((dormant + passed).skip(dormant.len() as int) =~= passed);
            }
            let variable: DomainId = match self.heap.peek_max() {
                Some((variable, _)) => variable,
                None => {
                    return None;
                },
            };

            if context.is_integer_fixed(variable) {
                self.statistics.num_assigned_predicates_encountered =
                self.statistics.num_assigned_predicates_encountered + 1;
                let ghost before = self.heap@;
                let _ = self.heap.pop_max();
                self.heap.delete_key(variable);
                self.dormant_variables.push(variable);
                proof {
                    let k = variable.id as int;
                    assert(before.deleted(k).deleted(k) =~= before.deleted(k));
                    lemma_one_more_taken_out(
                        old(self).heap@,
                        identifiers(passed),
                        before,
                        k,
                    );
                    assert(identifiers(passed.push(variable)) =~= identifiers(passed).push(k));
                    lemma_put_to_sleep(before, dormant + passed, variable);
                    assert((dormant + passed).push(variable) =~= dormant + passed.push(variable));
                    passed = passed.push(variable);
                }
                continue;
            }
            return Some(variable);
        }
    }

    /// Makes future bumps count more, by multiplying the increment with one over the decay factor.
    ///
    /// This is cheaper than scaling all activities down.
    pub fn decay_activities(&mut self)
        ensures
            *final(self) == (VariableActivitySearch {
                increment: old(self).increment.times_spec(
                    N::whole_spec(1).over_spec(old(self).decay_factor),
                ),
                ..*old(self)
            }),
    {
        self.increment = self.increment.times(N::whole(1).over(self.decay_factor));
    }
}

impl<N: OrderedNumber, BackupBrancher: Brancher> Brancher for VariableActivitySearch<
    N,
    BackupBrancher,
> {
    open spec fn can_decide(&self, assignments: AssignmentsModel) -> bool {
        &&& self.wf()
        &&& self.heap@.values.len() <= assignments.len()
        &&& self.statistics.has_room_for_decision(
            self.heap@.values.len(),
            self.heap@.values.len(),
        )
        &&& self.backup_brancher.can_decide(assignments)
    }

    open spec fn decides(
        before: Self,
        assignments: AssignmentsModel,
        decision: Option<Predicate>,
        after: Self,
    ) -> bool {
        let heap = before.heap_to_search();
        let dormant = if before.should_synchronise {
            Seq::empty()
        } else {
            before.dormant_variables@
        };
        &&& after.wf()
        &&& after.passed_over(heap, dormant, assignments)
        &&& if !after.heap@.present.is_empty() {
            &&& decision matches Some(predicate)
            &&& after.heap@.is_max(predicate.domain.id as int)
            &&& !is_fixed(assignments, predicate.domain)
            &&& predicate == InDomainSplit::selection(assignments, predicate.domain)
            &&& after.backup_brancher == before.backup_brancher
        } else if all_fixed(assignments) {
            decision is None && after.backup_brancher == before.backup_brancher
        } else {
            BackupBrancher::decides(
                before.backup_brancher,
                assignments,
                decision,
                after.backup_brancher,
            )
        }
        &&& after.statistics == before.statistics.with_decision(
            before.heap@.present.len(),
            (after.dormant_variables@.len() - dormant.len()) as nat,
        )
        &&& after == VariableActivitySearch {
            heap: after.heap,
            dormant_variables: after.dormant_variables,
            backup_brancher: after.backup_brancher,
            should_synchronise: false,
            statistics: after.statistics,
            ..before
        }
    }

    open spec fn accepts(&self, notification: Notification) -> bool {
        &&& notification is AppearanceInConflict ==> self.wf()
            && self.statistics.num_predicates_added < usize::MAX
        &&& notification !is LearnedNogood ==> self.backup_brancher.accepts(notification)
    }

    open spec fn reacts(before: Self, notification: Notification, after: Self) -> bool {
        &&& match notification {
            Notification::LearnedNogood(_, _) => after == before,
            Notification::Synchronise(_) => after == VariableActivitySearch {
                should_synchronise: true,
                backup_brancher: after.backup_brancher,
                ..before
            },
            Notification::Conflict => after == VariableActivitySearch {
                increment: before.increment.times_spec(
                    N::whole_spec(1).over_spec(before.decay_factor),
                ),
                backup_brancher: after.backup_brancher,
                ..before
            },
            Notification::AppearanceInConflict(predicate) => {
                &&& after.wf()
                &&& after.heap@ == before.bumped_heap(predicate.domain)
                &&& after == VariableActivitySearch {
                    heap: after.heap,
                    increment: before.increment_for(predicate.domain),
                    statistics: before.statistics.with_added(1),
                    backup_brancher: after.backup_brancher,
                    ..before
                }
            },
            _ => after == VariableActivitySearch {
                backup_brancher: after.backup_brancher,
                ..before
            },
        }
        &&& notification !is LearnedNogood ==> BackupBrancher::reacts(
            before.backup_brancher,
            notification,
            after.backup_brancher,
        )
    }

    open spec fn judges_restart(before: Self, answer: bool, after: Self) -> bool {
        !answer && after == before
    }

    open spec fn events(&self) -> Seq<BrancherEvent> {
        seq![
            BrancherEvent::Solution,
            BrancherEvent::Conflict,
            BrancherEvent::Backtrack,
            BrancherEvent::Synchronise,
            BrancherEvent::AppearanceInConflictPredicate,
        ] + self.backup_brancher.events()
    }

    open spec fn logged(&self, prefix: Seq<&'static str>) -> Seq<
        (Seq<&'static str>, SearchStatistics),
    > {
        seq![(prefix, self.statistics)]
    }

    fn next_decision(&mut self, context: &SelectionContext) -> (r: Option<Predicate>) {
        proof {
            self.heap.lemma_view();
            lemma_present_at_most_values(self.heap@);
        }
        self.statistics.num_calls = self.statistics.num_calls + 1;
        self.statistics.average_size_of_heap.add_term(self.heap.num_nonremoved_elements());

        if self.should_synchronise {
            self.restore_dormant_variables();
            self.should_synchronise = false;
        }

        if let Some(variable) = self.next_candidate_variable(context) {
            return Some(self.value_selector.select_value(context, variable));
        }

        if context.are_all_variables_assigned() {
            None
        } else {
            self.backup_brancher.next_decision(context)
        }
    }

    fn log_statistics(&self, statistic_logger: StatisticLogger) -> Vec<LoggedStatistics> {
        self.statistics.log(statistic_logger)
    }

    fn on_backtrack(&mut self) {
        self.backup_brancher.on_backtrack();
    }

    fn synchronise(&mut self, context: &SelectionContext) {
        self.should_synchronise = true;
        self.backup_brancher.synchronise(context);
    }

    fn on_conflict(&mut self) {
        self.decay_activities();
        self.backup_brancher.on_conflict();
    }

    fn on_solution(&mut self, solution: SolutionReference) {
        self.backup_brancher.on_solution(solution);
    }

    fn on_appearance_in_conflict_predicate(&mut self, predicate: Predicate) {
        self.bump_activity(predicate.get_domain());
        self.backup_brancher.on_appearance_in_conflict_predicate(predicate);
    }

    fn on_restart(&mut self) {
        self.backup_brancher.on_restart();
    }

    fn on_unassign_integer(&mut self, variable: DomainId, value: i32) {
        self.backup_brancher.on_unassign_integer(variable, value);
    }

    fn is_restart_pointless(&mut self) -> bool {
        false
    }

    fn subscribe_to_events(&self) -> (r: Vec<BrancherEvent>) {
        let mut r: Vec<BrancherEvent> = Vec::new();
        r.push(BrancherEvent::Solution);
        r.push(BrancherEvent::Conflict);
        r.push(BrancherEvent::Backtrack);
        r.push(BrancherEvent::Synchronise);
        r.push(BrancherEvent::AppearanceInConflictPredicate);
        let mut others: Vec<BrancherEvent> = self.backup_brancher.subscribe_to_events();
        r.append(&mut others);
        assert(r@ =~= self.events());
        r
    }

    fn on_learned_nogood(&mut self, learned_nogood: &LearnedNogood, context: &SelectionContext) {
    }
}

/// While a variable of the heap is left to decide, the brancher decides on one that no other
/// undecided variable of the heap is more active than, and the decision is not settled yet.
pub proof fn lemma_decides_on_most_active<N: OrderedNumber, B: Brancher>(
    before: VariableActivitySearch<N, B>,
    assignments: AssignmentsModel,
    decision: Option<Predicate>,
    after: VariableActivitySearch<N, B>,
    undecided: int,
)
    requires
        domains_wf(assignments),
        before.can_decide(assignments),
        VariableActivitySearch::decides(before, assignments, decision, after),
        before.heap_to_search().present.contains(undecided),
        !assignments[undecided].is_fixed(),
    ensures
        decision matches Some(predicate) && !is_assigned(assignments, predicate)
            && !before.heap@.values[predicate.domain.id as int].less_spec(
            before.heap@.values[undecided],
        ),
{
    let dormant = if before.should_synchronise {
        Seq::empty()
    } else {
        before.dormant_variables@
    };
    let passed = after.dormant_variables@.skip(dormant.len() as int);
    if !after.heap@.present.contains(undecided) {
        assert(identifiers(passed).contains(undecided));
        let i = identifiers(passed).index_of(undecided);
        assert(is_fixed(assignments, passed[i]));
    }
    after.heap.lemma_view();
    lemma_selection_is_undecided(assignments, decision->0.domain);
}

/// After synchronisation every variable that was ever bumped is searched again.
pub proof fn lemma_synchronising_wakes_all<N: OrderedNumber, B>(
    brancher: VariableActivitySearch<N, B>,
)
    requires
        brancher.wf(),
        brancher.should_synchronise,
    ensures
        brancher.heap_to_search() == brancher.heap@.full(),
{
    brancher.heap.lemma_view();
    lemma_restoring_brings_back_all(brancher.heap@, brancher.dormant_variables@);
}

/// Synchronising a second time before the next decision adds nothing.
pub proof fn lemma_synchronising_twice<N: OrderedNumber, B: Brancher>(
    first: VariableActivitySearch<N, B>,
    one: AssignmentsModel,
    second: VariableActivitySearch<N, B>,
    other: AssignmentsModel,
    third: VariableActivitySearch<N, B>,
)
    requires
        VariableActivitySearch::reacts(first, Notification::Synchronise(one), second),
        VariableActivitySearch::reacts(second, Notification::Synchronise(other), third),
    ensures
        third == (VariableActivitySearch { backup_brancher: third.backup_brancher, ..second }),
{
}

/// Bumping a variable makes it present, and does not make it less active than it was if the
/// increment is not negative and nothing is scaled down; the activities of all other variables
/// stay as they are.
pub proof fn lemma_bump_raises_activity<N: OrderedNumber, B>(
    brancher: VariableActivitySearch<N, B>,
    variable: DomainId,
)
    requires
        brancher.wf(),
        !brancher.must_rescale(variable),
        !brancher.increment.less_spec(N::whole_spec(0)),
    ensures
        brancher.bumped_heap(variable).present.contains(variable.id as int),
        !brancher.bumped_heap(variable).values[variable.id as int].less_spec(
            brancher.heap_with(variable).values[variable.id as int],
        ),
        forall|k: int|
            0 <= k < brancher.heap@.values.len() && k != variable.id ==> #[trigger]
                brancher.bumped_heap(variable).values[k] == brancher.heap@.values[k],
{
    N::sum_keeps_order(
        brancher.heap_with(variable).values[variable.id as int],
        brancher.increment,
    );
}

/// If the backup knows all variables, the brancher has no decision exactly when every variable is
/// assigned.
pub proof fn lemma_decides_until_all_fixed<N: OrderedNumber>(
    before: DefaultBrancher<N>,
    assignments: AssignmentsModel,
    decision: Option<Predicate>,
    after: DefaultBrancher<N>,
)
    requires
        assignments.len() <= 0x1_0000_0000,
        before.can_decide(assignments),
        DefaultBrancher::decides(before, assignments, decision, after),
        forall|i: int|
            0 <= i < assignments.len()
                ==> before.backup_brancher.variable_selector.variables@.contains(
                #[trigger] domain_id(i),
            ),
    ensures
        decision is None <==> all_fixed(assignments),
{
    let variables = before.backup_brancher.variable_selector.variables@;
    after.heap.lemma_view();
    if all_fixed(assignments) {
        if !after.heap@.present.is_empty() {
            let d = decision->0.domain;
            assert(assignments[d.id as int].is_fixed());
        }
    } else if decision is None {
        assert forall|i: int| 0 <= i < assignments.len() implies (
        #[trigger] assignments[i]).is_fixed() by {
            let position = variables.index_of(domain_id(i));
            assert(variables.contains(domain_id(i)));
            assert(is_fixed(assignments, variables[position]));
        }
    }
}

/// If the decay factor is positive and at most one, a conflict does not make the increment
/// smaller, so that later bumps count for at least as much as earlier ones.
pub proof fn lemma_conflict_raises_increment<N: OrderedNumber, B: Brancher>(
    before: VariableActivitySearch<N, B>,
    after: VariableActivitySearch<N, B>,
)
    requires
        VariableActivitySearch::reacts(before, Notification::Conflict, after),
        N::whole_spec(0).less_spec(before.decay_factor),
        !N::whole_spec(1).less_spec(before.decay_factor),
        !before.increment.less_spec(N::whole_spec(0)),
    ensures
        !after.increment.less_spec(before.increment),
{
    N::reciprocal_is_at_least_one(before.decay_factor);
    N::product_keeps_order(before.increment, N::whole_spec(1).over_spec(before.decay_factor));
}

/// Every notification leaves the brancher consistent.
pub proof fn lemma_stays_consistent<N: OrderedNumber, B: Brancher>(
    before: VariableActivitySearch<N, B>,
    notification: Notification,
    after: VariableActivitySearch<N, B>,
)
    requires
        before.wf(),
        VariableActivitySearch::reacts(before, notification, after),
    ensures
        after.wf(),
{
}

/// Deciding does not change any activity.
pub proof fn lemma_deciding_keeps_activities<N: OrderedNumber, B: Brancher>(
    before: VariableActivitySearch<N, B>,
    assignments: AssignmentsModel,
    decision: Option<Predicate>,
    after: VariableActivitySearch<N, B>,
)
    requires
        VariableActivitySearch::decides(before, assignments, decision, after),
    ensures
        after.heap@.values == before.heap@.values,
        after.max_threshold == before.max_threshold,
{
}

/// Scaling the activities down before a bump does not reverse the order of any two variables that
/// are not bumped.
pub proof fn lemma_bump_keeps_order<N: OrderedNumber, B>(
    brancher: VariableActivitySearch<N, B>,
    variable: DomainId,
    j: int,
    k: int,
)
    requires
        N::whole_spec(0).less_spec(brancher.max_threshold),
        0 <= j < brancher.heap@.values.len(),
        0 <= k < brancher.heap@.values.len(),
        j != variable.id,
        k != variable.id,
        !brancher.heap@.values[k].less_spec(brancher.heap@.values[j]),
    ensures
        !brancher.bumped_heap(variable).values[k].less_spec(
            brancher.bumped_heap(variable).values[j],
        ),
{
    lemma_division_keeps_order(brancher.heap_with(variable), j, k, brancher.max_threshold);
}

/// A notification leaves all activities below the threshold, which is positive, if they were, and
/// if the increment scales below it where the activities have to be scaled down.
pub proof fn lemma_activities_stay_below_threshold<N: OrderedNumber, B: Brancher>(
    before: VariableActivitySearch<N, B>,
    notification: Notification,
    after: VariableActivitySearch<N, B>,
)
    requires
        before.heap@.is_below(before.max_threshold),
        N::whole_spec(0).less_spec(before.max_threshold),
        VariableActivitySearch::reacts(before, notification, after),
        notification matches Notification::AppearanceInConflict(predicate)
            ==> before.must_rescale(predicate.domain) ==> scales_below(
            before.increment,
            before.max_threshold,
        ),
    ensures
        after.heap@.is_below(after.max_threshold),
        after.max_threshold == before.max_threshold,
{
    if let Notification::AppearanceInConflict(predicate) = notification {
        let grown = before.heap_with(predicate.domain);
        assert forall|k: int| 0 <= k < after.heap@.values.len() implies (
        #[trigger] after.heap@.values[k]).less_spec(after.max_threshold) by {
            let activity = grown.values[k];
            assert(activity.less_spec(before.max_threshold));
            assert(before.must_rescale(predicate.domain) ==> activity.over_spec(
                before.max_threshold,
            ).less_spec(before.max_threshold));
        }
    }
}

} // verus!
