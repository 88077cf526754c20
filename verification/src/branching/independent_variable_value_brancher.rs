//! A brancher that selects a variable first and a value for it afterwards.

use crate::assignments::{
    domains_wf, is_fixed, knows, AssignmentsModel, SelectionContext, SolutionReference,
};
use crate::branching::brancher::{Brancher, BrancherEvent, LearnedNogood, Notification};
use crate::branching::selection::{is_first_unfixed, InDomainMin, InputOrder};
use crate::predicates::Predicate;
use crate::statistics::{log_model, LoggedStatistics, SearchStatistics, StatisticLogger};
use crate::variables::DomainId;
use vstd::prelude::*;

verus! {

/// Selects variables in a fixed order and assigns them their least value.
#[derive(Debug)]
pub struct IndependentVariableValueBrancher {
    /// Selects the variable.
    pub variable_selector: InputOrder,
    /// Selects the value.
    pub value_selector: InDomainMin,
}

impl IndependentVariableValueBrancher {
    /// Creates a brancher out of the two selectors.
    pub fn new(variable_selector: InputOrder, value_selector: InDomainMin) -> (r: Self)
        ensures
            r.variable_selector == variable_selector,
    {
        IndependentVariableValueBrancher { variable_selector, value_selector }
    }
}

impl Brancher for IndependentVariableValueBrancher {
    open spec fn can_decide(&self, assignments: AssignmentsModel) -> bool {
        forall|i: int|
            0 <= i < self.variable_selector.variables@.len() ==> knows(
                assignments,
                #[trigger] self.variable_selector.variables@[i],
            )
    }

    open spec fn decides(
        before: Self,
        assignments: AssignmentsModel,
        decision: Option<Predicate>,
        after: Self,
    ) -> bool {
        let variables = before.variable_selector.variables@;
        &&& after == before
        &&& match decision {
            Some(predicate) => exists|i: int|
                #[trigger] is_first_unfixed(variables, assignments, i) && i < variables.len()
                    && predicate == InDomainMin::selection(assignments, variables[i]),
            None => is_first_unfixed(variables, assignments, variables.len() as int),
        }
    }

    open spec fn accepts(&self, notification: Notification) -> bool {
        true
    }

    open spec fn reacts(before: Self, notification: Notification, after: Self) -> bool {
        after == before
    }

    open spec fn judges_restart(before: Self, answer: bool, after: Self) -> bool {
        answer && after == before
    }

    open spec fn events(&self) -> Seq<BrancherEvent> {
        Seq::empty()
    }

    open spec fn logged(&self, prefix: Seq<&'static str>) -> Seq<
        (Seq<&'static str>, SearchStatistics),
    > {
        Seq::empty()
    }

    fn next_decision(&mut self, context: &SelectionContext) -> Option<Predicate> {
        match self.variable_selector.select_variable(context) {
            Some(variable) => Some(self.value_selector.select_value(context, variable)),
            None => None,
        }
    }

    fn log_statistics(&self, statistic_logger: StatisticLogger) -> (r: Vec<LoggedStatistics>) {
        let r: Vec<LoggedStatistics> = Vec::new();
        assert(log_model(r@) =~= Seq::<(Seq<&'static str>, SearchStatistics)>::empty());
        r
    }

    fn on_backtrack(&mut self) {
    }

    fn synchronise(&mut self, context: &SelectionContext) {
    }

    fn on_conflict(&mut self) {
    }

    fn on_solution(&mut self, solution: SolutionReference) {
    }

    fn on_appearance_in_conflict_predicate(&mut self, predicate: Predicate) {
    }

    fn on_restart(&mut self) {
    }

    fn on_unassign_integer(&mut self, variable: DomainId, value: i32) {
    }

    fn is_restart_pointless(&mut self) -> bool {
        true
    }

    fn subscribe_to_events(&self) -> Vec<BrancherEvent> {
        Vec::new()
    }

    fn on_learned_nogood(&mut self, learned_nogood: &LearnedNogood, context: &SelectionContext) {
    }
}

/// The decision is to leave only its least value to the first variable, in the given order, that
/// has more than one; there is none exactly if every variable has one value left.
/// Deciding does not change the brancher.
pub proof fn lemma_assigns_in_order(
    before: IndependentVariableValueBrancher,
    assignments: AssignmentsModel,
    decision: Option<Predicate>,
    after: IndependentVariableValueBrancher,
    v: int,
)
    requires
        domains_wf(assignments),
        before.can_decide(assignments),
        IndependentVariableValueBrancher::decides(before, assignments, decision, after),
    ensures
        after == before,
        decision is None <==> forall|i: int|
            0 <= i < before.variable_selector.variables@.len() ==> assignments[(
            #[trigger] before.variable_selector.variables@[i]).id as int].lower
                == assignments[before.variable_selector.variables@[i].id as int].upper,
        decision matches Some(predicate) ==> {
            let domain = assignments[predicate.domain.id as int];
            &&& domain.lower < domain.upper
            &&& domain.has(v) ==> (predicate.holds(v) <==> v == domain.lower)
            &&& predicate.predicate_type is UpperBound
            &&& exists|i: int|
                {
                    &&& 0 <= i < before.variable_selector.variables@.len()
                    &&& #[trigger] before.variable_selector.variables@[i] == predicate.domain
                    &&& forall|j: int|
                        0 <= j < i ==> assignments[(
                        #[trigger] before.variable_selector.variables@[j]).id as int].lower
                            == assignments[before.variable_selector.variables@[j].id as int].upper
                }
        },
{
    let variables = before.variable_selector.variables@;
    match decision {
        Some(predicate) => {
            let i = choose|i: int|
                #[trigger] is_first_unfixed(variables, assignments, i) && i < variables.len()
                    && predicate == InDomainMin::selection(assignments, variables[i]);
            assert(knows(assignments, variables[i]));
            let domain = assignments[variables[i].id as int];
            assert(domain.wf());
            assert(!is_fixed(assignments, variables[i]));
            assert(variables[i] == predicate.domain);
            assert forall|j: int| 0 <= j < i implies assignments[(
            #[trigger] variables[j]).id as int].lower
                == assignments[variables[j].id as int].upper by {
                assert(is_fixed(assignments, variables[j]));
            }
        },
        None => {
            assert forall|i: int| 0 <= i < variables.len() implies assignments[(
            #[trigger] variables[i]).id as int].lower
                == assignments[variables[i].id as int].upper by {
                assert(is_fixed(assignments, variables[i]));
            }
        },
    }
}

/// No notification changes the brancher; it asks for none, has nothing to log, and takes every
/// restart for pointless.
pub proof fn lemma_never_changes(
    before: IndependentVariableValueBrancher,
    notification: Notification,
    after: IndependentVariableValueBrancher,
    answer: bool,
    asked: IndependentVariableValueBrancher,
    prefix: Seq<&'static str>,
)
    requires
        IndependentVariableValueBrancher::reacts(before, notification, after),
        IndependentVariableValueBrancher::judges_restart(before, answer, asked),
    ensures
        after == before,
        asked == before,
        answer,
        before.events().len() == 0,
        before.logged(prefix).len() == 0,
{
}

} // verus!
