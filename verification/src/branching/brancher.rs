//! The interface of a branching strategy.

use crate::assignments::{AssignmentsModel, SelectionContext, SolutionReference};
use crate::predicates::Predicate;
use crate::statistics::{log_model, LoggedStatistics, SearchStatistics, StatisticLogger};
use crate::variables::DomainId;
use vstd::prelude::*;

verus! {

/// The events that a brancher can ask to be notified of.
#[derive(Clone, Copy, Debug, PartialEq, Eq, Hash, Structural)]
pub enum BrancherEvent {
    /// A conflict was found.
    Conflict,
    /// The solver backtracked.
    Backtrack,
    /// A solution was found.
    Solution,
    /// A variable lost its value.
    UnassignInteger,
    /// A predicate was seen while a conflict was analysed.
    AppearanceInConflictPredicate,
    /// The solver restarted.
    Restart,
    /// The solver synchronised after backtracking.
    Synchronise,
    /// A nogood was learned.
    LearnedNogood,
}

/// A conjunction of predicates that the solver has found to be impossible.
pub struct LearnedNogood {
    /// The predicates.
    pub predicates: Vec<Predicate>,
}

/// One notification of a brancher, with what it says.
pub enum Notification {
    /// The solver backtracked.
    Backtrack,
    /// The solver synchronised; these are the domains now.
    Synchronise(AssignmentsModel),
    /// A conflict was found.
    Conflict,
    /// A solution was found.
    Solution(AssignmentsModel),
    /// A predicate was seen while a conflict was analysed.
    AppearanceInConflict(Predicate),
    /// The solver restarted.
    Restart,
    /// A variable lost its value.
    UnassignInteger(DomainId, int),
    /// A nogood was learned under these domains.
    LearnedNogood(Seq<Predicate>, AssignmentsModel),
}

/// A branching strategy.
///
/// The specification functions leave it to each strategy what it does; a strategy that is built
/// on another one is described in terms of them.
pub trait Brancher: Sized {
    /// Whether a decision can be asked for under these domains.
    spec fn can_decide(&self, assignments: AssignmentsModel) -> bool;

    /// Whether asking `before` for a decision can return `decision` and leave `after`.
    spec fn decides(
        before: Self,
        assignments: AssignmentsModel,
        decision: Option<Predicate>,
        after: Self,
    ) -> bool;

    /// Whether the brancher can be notified of this.
    spec fn accepts(&self, notification: Notification) -> bool;

    /// Whether the notification can turn `before` into `after`.
    spec fn reacts(before: Self, notification: Notification, after: Self) -> bool;

    /// Whether asking `before` if a restart is pointless can give `answer` and leave `after`.
    spec fn judges_restart(before: Self, answer: bool, after: Self) -> bool;

    /// The events that the brancher wants to be notified of.
    spec fn events(&self) -> Seq<BrancherEvent>;

    /// What the brancher logs under `prefix`.
    spec fn logged(&self, prefix: Seq<&'static str>) -> Seq<(Seq<&'static str>, SearchStatistics)>;

    /// Returns the next decision, or `None` if there is nothing left to decide.
    fn next_decision(&mut self, context: &SelectionContext) -> (r: Option<Predicate>)
        requires
            context.wf(),
            old(self).can_decide(context@),
        ensures
            Self::decides(*old(self), context@, r, *final(self)),
    ;

    /// Returns what the brancher has to log.
    fn log_statistics(&self, statistic_logger: StatisticLogger) -> (r: Vec<LoggedStatistics>)
        ensures
            log_model(r@) == self.logged(statistic_logger@),
    ;

    /// Called when the solver backtracked.
    fn on_backtrack(&mut self)
        requires
            old(self).accepts(Notification::Backtrack),
        ensures
            Self::reacts(*old(self), Notification::Backtrack, *final(self)),
    ;

    /// Called when the solver synchronised after backtracking.
    fn synchronise(&mut self, context: &SelectionContext)
        requires
            context.wf(),
            old(self).accepts(Notification::Synchronise(context@)),
        ensures
            Self::reacts(*old(self), Notification::Synchronise(context@), *final(self)),
    ;

    /// Called when a conflict was found.
    fn on_conflict(&mut self)
        requires
            old(self).accepts(Notification::Conflict),
        ensures
            Self::reacts(*old(self), Notification::Conflict, *final(self)),
    ;

    /// Called when a solution was found.
    fn on_solution(&mut self, solution: SolutionReference)
        requires
            solution.wf(),
            old(self).accepts(Notification::Solution(solution@)),
        ensures
            Self::reacts(*old(self), Notification::Solution(solution@), *final(self)),
    ;

    /// Called when a predicate was seen while a conflict was analysed.
    fn on_appearance_in_conflict_predicate(&mut self, predicate: Predicate)
        requires
            old(self).accepts(Notification::AppearanceInConflict(predicate)),
        ensures
            Self::reacts(
                *old(self),
                Notification::AppearanceInConflict(predicate),
                *final(self),
            ),
    ;

    /// Called when the solver restarted.
    fn on_restart(&mut self)
        requires
            old(self).accepts(Notification::Restart),
        ensures
            Self::reacts(*old(self), Notification::Restart, *final(self)),
    ;

    /// Called when `variable` lost the value `value`.
    fn on_unassign_integer(&mut self, variable: DomainId, value: i32)
        requires
            old(self).accepts(Notification::UnassignInteger(variable, value as int)),
        ensures
            Self::reacts(
                *old(self),
                Notification::UnassignInteger(variable, value as int),
                *final(self),
            ),
    ;

    /// Returns whether a restart would change nothing.
    fn is_restart_pointless(&mut self) -> (r: bool)
        ensures
            Self::judges_restart(*old(self), r, *final(self)),
    ;

    /// Returns the events that the brancher wants to be notified of.
    fn subscribe_to_events(&self) -> (r: Vec<BrancherEvent>)
        ensures
            r@ == self.events(),
    ;

    /// Called when a nogood was learned.
    fn on_learned_nogood(&mut self, learned_nogood: &LearnedNogood, context: &SelectionContext)
        requires
            context.wf(),
            old(self).accepts(
                Notification::LearnedNogood(learned_nogood.predicates@, context@),
            ),
        ensures
            Self::reacts(
                *old(self),
                Notification::LearnedNogood(learned_nogood.predicates@, context@),
                *final(self),
            ),
    ;
}

/// One call that can change a brancher.
pub enum BrancherCall {
    /// The brancher is notified.
    Notify(Notification),
    /// The brancher is asked for a decision under these domains, and gives this one.
    Decide(AssignmentsModel, Option<Predicate>),
}

/// Whether the calls lead from the first of the given states through the others, one after each.
pub open spec fn is_course<B: Brancher>(states: Seq<B>, calls: Seq<BrancherCall>) -> bool {
    &&& states.len() == calls.len() + 1
    &&& forall|i: int|
        0 <= i < calls.len() ==> match #[trigger] calls[i] {
            BrancherCall::Notify(notification) => B::reacts(states[i], notification, states[i + 1]),
            BrancherCall::Decide(assignments, decision) => B::decides(
                states[i],
                assignments,
                decision,
                states[i + 1],
            ),
        }
}

} // verus!
