use pumpkin_search::assignments::{Assignments, SelectionContext, SolutionReference};
use pumpkin_search::branching::custom_search::SearchStep;
use pumpkin_search::branching::variable_activity_branching::DefaultBrancher as ActivityBrancher;
use pumpkin_search::branching::variable_vsid::DefaultBrancher;
use pumpkin_search::branching::{
    Brancher, BrancherEvent, CustomSearch, InDomainMin, IndependentVariableValueBrancher,
    InputOrder, LearnedNogood, VariableActivitySearch,
};
use pumpkin_search::containers::KeyValueHeap;
use pumpkin_search::predicates::{Predicate, PredicateType};
use pumpkin_search::statistics::StatisticLogger;
use pumpkin_search::variables::DomainId;
use pumpkin_search::{Fixed, Number, OrderedNumber};

/// Double-precision activities.
#[derive(Clone, Copy, Debug, PartialEq)]
struct Double(f64);

impl Number for Double {
    fn decimal(mantissa: u64, exponent: i32) -> Self {
        Double(format!("{mantissa}e{exponent}").parse().unwrap())
    }

    fn whole(n: u128) -> Self {
        Double(n as f64)
    }

    fn greatest() -> Self {
        Double(f64::MAX)
    }

    fn plus(self, other: Self) -> Self {
        Double(self.0 + other.0)
    }

    fn minus(self, other: Self) -> Self {
        Double(self.0 - other.0)
    }

    fn times(self, other: Self) -> Self {
        Double(self.0 * other.0)
    }

    fn over(self, other: Self) -> Self {
        Double(self.0 / other.0)
    }

    fn magnitude(self) -> Self {
        Double(self.0.abs())
    }

    fn less_than(self, other: Self) -> bool {
        self.0 < other.0
    }

    // What each operation is specified to return is what it returns.

    fn decimal_spec(mantissa: u64, exponent: i32) -> Self {
        Self::decimal(mantissa, exponent)
    }

    fn whole_spec(n: u128) -> Self {
        Self::whole(n)
    }

    fn greatest_spec() -> Self {
        Self::greatest()
    }

    fn plus_spec(self, other: Self) -> Self {
        self.plus(other)
    }

    fn minus_spec(self, other: Self) -> Self {
        self.minus(other)
    }

    fn times_spec(self, other: Self) -> Self {
        self.times(other)
    }

    fn over_spec(self, other: Self) -> Self {
        self.over(other)
    }

    fn magnitude_spec(self) -> Self {
        self.magnitude()
    }

    fn less_spec(self, other: Self) -> bool {
        self.less_than(other)
    }
}

impl OrderedNumber for Double {
    fn lowest() -> Self {
        Double(f64::NEG_INFINITY)
    }

    fn lowest_spec() -> Self {
        Self::lowest()
    }

    fn order_is_total(_: Self, _: Self) {}

    fn order_is_transitive(_: Self, _: Self, _: Self) {}

    fn lowest_is_lowest(_: Self) {}

    fn sum_keeps_order(_: Self, _: Self) {}

    fn quotient_keeps_order(_: Self, _: Self, _: Self) {}

    fn reciprocal_is_at_least_one(_: Self) {}

    fn product_keeps_order(_: Self, _: Self) {}

    fn one_is_not_negative() {}

    fn counts_move_up_exactly(_: Self, _: Self) {}
}

fn at_least(domain: DomainId, value: i32) -> Predicate {
    Predicate::new(domain, PredicateType::LowerBound, value)
}

fn at_most(domain: DomainId, value: i32) -> Predicate {
    Predicate::new(domain, PredicateType::UpperBound, value)
}

fn equal(domain: DomainId, value: i32) -> Predicate {
    Predicate::new(domain, PredicateType::Equal, value)
}

fn not_equal(domain: DomainId, value: i32) -> Predicate {
    Predicate::new(domain, PredicateType::NotEqual, value)
}

fn in_order(variables: Vec<DomainId>) -> IndependentVariableValueBrancher {
    IndependentVariableValueBrancher::new(InputOrder::new(variables), InDomainMin)
}

fn custom(variables: Vec<DomainId>) -> CustomSearch<Double, IndependentVariableValueBrancher> {
    CustomSearch::new(in_order(variables))
}

fn learn(
    brancher: &mut CustomSearch<Double, IndependentVariableValueBrancher>,
    assignments: &Assignments,
    predicates: Vec<Predicate>,
) {
    brancher.on_learned_nogood(
        &LearnedNogood { predicates },
        &SelectionContext::new(assignments),
    );
}

#[test]
fn brancher_picks_most_active_predicate_for_variable() {
    let mut assignments = Assignments::new();
    let x = assignments.grow(0, 10);
    let y = assignments.grow(0, 10);

    let mut brancher = DefaultBrancher::<Double>::default_over_all_variables(&assignments);
    brancher.on_appearance_in_conflict_predicate(at_least(y, 5));
    brancher.on_appearance_in_conflict_predicate(at_least(y, 5));
    brancher.on_appearance_in_conflict_predicate(at_least(y, 5));
    brancher.on_appearance_in_conflict_predicate(at_least(x, 5));
    brancher.on_appearance_in_conflict_predicate(at_least(x, 4));
    brancher.on_appearance_in_conflict_predicate(at_least(x, 7));
    brancher.on_appearance_in_conflict_predicate(at_least(x, 7));

    let result = brancher.next_decision(&SelectionContext::new(&assignments));

    assert_eq!(result, Some(at_least(x, 7)));
}

#[test]
fn dormant_variables_are_restored_after_synchronise() {
    let mut assignments = Assignments::new();
    let x = assignments.grow(0, 10);

    let mut brancher = DefaultBrancher::<Double>::default_over_all_variables(&assignments);

    let predicate = at_least(x, 5);
    brancher.on_appearance_in_conflict_predicate(predicate);
    let decision = brancher.next_decision(&SelectionContext::new(&assignments));
    assert_eq!(decision, Some(predicate));

    assignments.new_checkpoint();
    let _ = assignments.post_predicate(at_least(x, 5));

    assignments.new_checkpoint();
    let _ = assignments.post_predicate(at_least(x, 7));

    assignments.new_checkpoint();
    let _ = assignments.post_predicate(at_least(x, 10));

    assignments.new_checkpoint();

    let decision = brancher.next_decision(&SelectionContext::new(&assignments));
    assert!(decision.is_none());
    assert!(brancher.dormant_variables.contains(&x));

    assignments.synchronise(3);

    let decision = brancher.next_decision(&SelectionContext::new(&assignments));
    assert!(decision.is_none());
    assert!(brancher.dormant_variables.contains(&x));

    assignments.synchronise(0);
    brancher.synchronise(&SelectionContext::new(&assignments));

    let decision = brancher.next_decision(&SelectionContext::new(&assignments));
    assert_eq!(decision, Some(predicate));
    assert!(!brancher.dormant_variables.contains(&x));
}

#[test]
fn uses_stored_solution() {
    let mut assignments = Assignments::new();
    let x = assignments.grow(0, 10);

    assignments.new_checkpoint();
    let _ = assignments.post_predicate(equal(x, 7));

    let mut brancher = DefaultBrancher::<Double>::default_over_all_variables(&assignments);

    brancher.on_solution(SolutionReference::new(&assignments));

    assignments.synchronise(0);

    assert_eq!(at_least(x, 5), brancher.determine_polarity(at_least(x, 5)));
    assert_eq!(at_least(x, 10).negated(), brancher.determine_polarity(at_least(x, 10)));
    assert_eq!(at_most(x, 8), brancher.determine_polarity(at_most(x, 8)));
    assert_eq!(at_most(x, 5).negated(), brancher.determine_polarity(at_most(x, 5)));

    brancher.on_appearance_in_conflict_predicate(at_least(x, 5));

    let result = brancher.next_decision(&SelectionContext::new(&assignments));
    assert_eq!(result, Some(at_least(x, 5)));
}

#[test]
fn test_custom_search() {}

#[test]
fn vsid_without_predicates_asks_the_backup() {
    let mut assignments = Assignments::new();
    let x = assignments.grow(3, 9);
    let mut brancher = DefaultBrancher::<Double>::default_over_all_variables(&assignments);

    let decision = brancher.next_decision(&SelectionContext::new(&assignments));

    assert_eq!(decision, Some(at_most(x, 3)));
    assert_eq!(brancher.statistics.num_backup_called, 1);
    assert_eq!(brancher.statistics.num_calls, 1);
    assert_eq!(brancher.statistics.average_size_of_heap.sum, 0);
    assert_eq!(brancher.statistics.average_size_of_heap.num_terms, 1);
}

#[test]
fn vsid_has_no_decision_once_all_variables_are_assigned() {
    let mut assignments = Assignments::new();
    let x = assignments.grow(0, 1);
    let y = assignments.grow(0, 1);
    let mut brancher = DefaultBrancher::<Double>::default_over_all_variables(&assignments);
    brancher.on_appearance_in_conflict_predicate(at_least(x, 1));

    let _ = assignments.post_predicate(at_least(x, 1));
    let decision = brancher.next_decision(&SelectionContext::new(&assignments));
    assert_eq!(decision, Some(at_most(y, 0)));

    let _ = assignments.post_predicate(at_most(y, 0));
    let decision = brancher.next_decision(&SelectionContext::new(&assignments));
    assert_eq!(decision, None);
    assert_eq!(brancher.statistics.num_backup_called, 1);
}

#[test]
fn vsid_passes_over_assigned_predicates() {
    let mut assignments = Assignments::new();
    let x = assignments.grow(0, 10);
    let mut brancher = DefaultBrancher::<Double>::default_over_all_variables(&assignments);
    brancher.on_appearance_in_conflict_predicate(at_least(x, 5));
    brancher.on_appearance_in_conflict_predicate(at_least(x, 5));
    brancher.on_appearance_in_conflict_predicate(at_least(x, 7));
    assert_eq!(brancher.statistics.num_predicates_added, 2);

    let _ = assignments.post_predicate(at_least(x, 6));
    let decision = brancher.next_decision(&SelectionContext::new(&assignments));

    assert_eq!(decision, Some(at_least(x, 7)));
    assert_eq!(brancher.statistics.num_assigned_predicates_encountered, 1);
}

#[test]
fn vsid_scales_activities_down_at_the_threshold() {
    let mut assignments = Assignments::new();
    let x = assignments.grow(0, 10);
    let mut brancher = DefaultBrancher::<Double>::default_over_all_variables(&assignments);
    brancher.max_threshold = Double(3.0);
    for _ in 0..2 {
        brancher.on_appearance_in_conflict_predicate(at_least(x, 5));
    }
    assert_eq!(brancher.variable_heap.get_value(x), Double(2.0));
    assert_eq!(brancher.increment, Double(1.0));

    brancher.on_appearance_in_conflict_predicate(at_least(x, 5));

    assert_eq!(brancher.increment, Double(1.0 / 3.0));
    assert_eq!(brancher.variable_heap.get_value(x), Double(2.0 / 3.0 + 1.0 / 3.0));
}

#[test]
fn vsid_conflicts_raise_the_increment() {
    let mut assignments = Assignments::new();
    let x = assignments.grow(0, 10);
    let y = assignments.grow(0, 10);
    let mut brancher = DefaultBrancher::<Double>::default_over_all_variables(&assignments);
    brancher.on_appearance_in_conflict_predicate(at_least(x, 5));
    brancher.on_conflict();
    assert_eq!(brancher.increment, Double(1.0 / 0.95));

    brancher.on_appearance_in_conflict_predicate(at_least(y, 5));
    let decision = brancher.next_decision(&SelectionContext::new(&assignments));
    assert_eq!(decision, Some(at_least(y, 5)));
}

#[test]
fn vsid_synchronising_is_put_off_until_the_next_decision() {
    let mut assignments = Assignments::new();
    let x = assignments.grow(0, 10);
    let mut brancher = DefaultBrancher::<Fixed>::default_over_all_variables(&assignments);
    brancher.on_appearance_in_conflict_predicate(at_least(x, 5));
    assignments.new_checkpoint();
    let _ = assignments.post_predicate(equal(x, 4));
    assert_eq!(brancher.next_decision(&SelectionContext::new(&assignments)), None);
    assert_eq!(brancher.dormant_variables, vec![x]);

    assignments.synchronise(0);
    brancher.synchronise(&SelectionContext::new(&assignments));
    brancher.synchronise(&SelectionContext::new(&assignments));
    assert!(brancher.should_synchronise);
    assert_eq!(brancher.dormant_variables, vec![x]);

    let decision = brancher.next_decision(&SelectionContext::new(&assignments));
    assert_eq!(decision, Some(at_least(x, 5)));
    assert!(!brancher.should_synchronise);
    assert!(brancher.dormant_variables.is_empty());
}

#[test]
fn vsid_keeps_predicates_on_variables_that_the_solution_does_not_know() {
    let mut small = Assignments::new();
    let _ = small.grow(1, 1);
    let mut assignments = Assignments::new();
    let _ = assignments.grow(0, 10);
    let y = assignments.grow(0, 10);
    let mut brancher = DefaultBrancher::<Double>::default_over_all_variables(&assignments);
    brancher.on_solution(SolutionReference::new(&small));

    assert_eq!(brancher.determine_polarity(at_least(y, 5)), at_least(y, 5));
}

#[test]
fn vsid_reports_its_events_and_statistics() {
    let mut assignments = Assignments::new();
    let x = assignments.grow(0, 10);
    let mut brancher = DefaultBrancher::<Double>::default_over_all_variables(&assignments);
    let y = assignments.grow(0, 10);
    brancher.add_domain(y);
    assert_eq!(brancher.backup_brancher.variable_selector.variables, vec![x, y]);
    assert_eq!(
        brancher.subscribe_to_events(),
        vec![
            BrancherEvent::Solution,
            BrancherEvent::Conflict,
            BrancherEvent::Backtrack,
            BrancherEvent::Synchronise,
            BrancherEvent::AppearanceInConflictPredicate,
        ]
    );
    assert!(!brancher.is_restart_pointless());

    let log = brancher.log_statistics(StatisticLogger { prefix: vec!["solver"] });
    assert_eq!(log.len(), 1);
    assert_eq!(log[0].logger.prefix, vec!["solver", "AutonomousSearch"]);
    assert_eq!(log[0].statistics, brancher.statistics);
}

#[test]
fn activity_splits_the_most_active_variable() {
    let mut assignments = Assignments::new();
    let x = assignments.grow(0, 10);
    let y = assignments.grow(-5, 10);
    let mut brancher = ActivityBrancher::<Double>::default_over_all_variables(&assignments);
    brancher.on_appearance_in_conflict_predicate(at_least(x, 5));
    brancher.on_appearance_in_conflict_predicate(at_least(y, 5));
    brancher.on_appearance_in_conflict_predicate(at_most(y, 3));

    let decision = brancher.next_decision(&SelectionContext::new(&assignments));

    assert_eq!(decision, Some(at_most(y, 2)));
    assert_eq!(brancher.statistics.num_predicates_added, 3);
    assert_eq!(brancher.statistics.average_size_of_heap.sum, 2);
    assert_eq!(brancher.statistics.average_size_of_heap.value(), 2);
}

#[test]
fn activity_puts_assigned_variables_to_sleep_until_synchronisation() {
    let mut assignments = Assignments::new();
    let x = assignments.grow(0, 10);
    let y = assignments.grow(0, 10);
    let mut brancher = ActivityBrancher::<Double>::default_over_all_variables(&assignments);
    brancher.on_appearance_in_conflict_predicate(at_least(y, 5));
    assignments.new_checkpoint();
    let _ = assignments.post_predicate(equal(y, 4));

    let decision = brancher.next_decision(&SelectionContext::new(&assignments));
    assert_eq!(decision, Some(at_most(x, 5)));
    assert_eq!(brancher.dormant_variables, vec![y]);
    assert_eq!(brancher.statistics.num_assigned_predicates_encountered, 1);

    let _ = assignments.post_predicate(equal(x, 0));
    let decision = brancher.next_decision(&SelectionContext::new(&assignments));
    assert_eq!(decision, None);
    assert_eq!(brancher.dormant_variables, vec![y, x]);

    assignments.synchronise(0);
    brancher.synchronise(&SelectionContext::new(&assignments));
    let decision = brancher.next_decision(&SelectionContext::new(&assignments));
    assert_eq!(decision, Some(at_most(y, 5)));
    assert!(brancher.dormant_variables.is_empty());
}

#[test]
fn activity_scales_down_and_decays() {
    let mut assignments = Assignments::new();
    let x = assignments.grow(0, 10);
    let mut brancher: VariableActivitySearch<Fixed, IndependentVariableValueBrancher> =
        VariableActivitySearch::new(in_order(vec![x]));
    brancher.max_threshold = Fixed { units: 2_000_000 };
    brancher.on_appearance_in_conflict_predicate(at_least(x, 5));
    assert_eq!(brancher.heap.get_value(x), Fixed { units: 1_000_000 });

    brancher.on_appearance_in_conflict_predicate(at_least(x, 5));
    assert_eq!(brancher.increment, Fixed { units: 500_000 });
    assert_eq!(brancher.heap.get_value(x), Fixed { units: 1_000_000 });

    brancher.on_conflict();
    assert_eq!(brancher.increment, Fixed { units: 526_315 });
    assert!(!brancher.is_restart_pointless());
}

#[test]
fn custom_search_branches_on_the_least_value_above_a_lower_bound() {
    let mut assignments = Assignments::new();
    let x = assignments.grow(0, 10);
    let mut brancher = custom(vec![x]);
    learn(&mut brancher, &assignments, vec![at_least(x, 5)]);

    assert_eq!(brancher.heap.get_value(x), Double(1.0));
    let decision = brancher.next_decision(&SelectionContext::new(&assignments));
    assert_eq!(decision, Some(at_least(x, 5)));
}

#[test]
fn custom_search_branches_on_the_greatest_value_below_an_upper_bound() {
    let mut assignments = Assignments::new();
    let x = assignments.grow(0, 10);
    let mut brancher = custom(vec![x]);
    learn(&mut brancher, &assignments, vec![at_most(x, 5)]);

    let decision = brancher.next_decision(&SelectionContext::new(&assignments));
    assert_eq!(decision, Some(at_most(x, 5)));
}

#[test]
fn custom_search_prefers_the_lower_bound_after_an_equality() {
    let mut assignments = Assignments::new();
    let x = assignments.grow(0, 10);
    let mut brancher = custom(vec![x]);
    learn(&mut brancher, &assignments, vec![equal(x, 5)]);

    let activity = brancher.var_val_activity[&x.id][&5];
    assert_eq!(activity.ge, Double(1.0));
    assert_eq!(activity.le, Double(1.0));
    let decision = brancher.next_decision(&SelectionContext::new(&assignments));
    assert_eq!(decision, Some(at_least(x, 5)));
}

#[test]
fn custom_search_learns_both_sides_of_a_disequality() {
    let mut assignments = Assignments::new();
    let x = assignments.grow(0, 10);
    let mut brancher = custom(vec![x]);
    learn(&mut brancher, &assignments, vec![not_equal(x, 5)]);

    let values = &brancher.var_val_activity[&x.id];
    assert!(!values.contains_key(&5));
    assert_eq!((values[&4].ge, values[&4].le), (Double(0.0), Double(1.0)));
    assert_eq!((values[&6].ge, values[&6].le), (Double(1.0), Double(0.0)));
    let decision = brancher.next_decision(&SelectionContext::new(&assignments));
    assert_eq!(decision, Some(at_most(x, 4)));
}

#[test]
fn custom_search_saturates_disequalities_at_the_ends() {
    let mut assignments = Assignments::new();
    let x = assignments.grow(i32::MIN, i32::MIN + 2);
    let y = assignments.grow(i32::MAX - 2, i32::MAX);
    let mut brancher = custom(vec![x, y]);
    learn(
        &mut brancher,
        &assignments,
        vec![not_equal(x, i32::MIN), not_equal(y, i32::MAX)],
    );

    let values = &brancher.var_val_activity[&x.id];
    assert_eq!(values[&i32::MIN].le, Double(1.0));
    assert_eq!(values[&(i32::MIN + 1)].ge, Double(1.0));
    let values = &brancher.var_val_activity[&y.id];
    assert_eq!(values[&(i32::MAX - 1)].le, Double(1.0));
    assert_eq!(values[&i32::MAX].ge, Double(1.0));
}

#[test]
fn custom_search_learns_only_values_of_the_domain() {
    let mut assignments = Assignments::new();
    let x = assignments.grow(0, 10);
    let _ = assignments.post_predicate(not_equal(x, 7));
    let mut brancher = custom(vec![x]);
    learn(&mut brancher, &assignments, vec![at_least(x, 6), equal(x, 20)]);

    let values = &brancher.var_val_activity[&x.id];
    let mut bumped: Vec<i32> = values.keys().copied().collect();
    bumped.sort();
    assert_eq!(bumped, vec![6, 8, 9, 10, 20]);
}

#[test]
fn custom_search_moves_a_stuck_variable_below_another() {
    let mut assignments = Assignments::new();
    let x = assignments.grow(0, 10);
    let y = assignments.grow(0, 10);
    let mut brancher = custom(vec![x, y]);
    for _ in 0..3 {
        learn(&mut brancher, &assignments, vec![equal(x, 0)]);
    }
    learn(&mut brancher, &assignments, vec![at_least(x, 5)]);
    for _ in 0..2 {
        learn(&mut brancher, &assignments, vec![at_least(y, 5)]);
    }
    assert_eq!(brancher.heap.get_value(x), Double(3.0));

    let step = brancher.examine_top(&SelectionContext::new(&assignments));
    assert_eq!(step, SearchStep::PassedOver);
    assert_eq!(brancher.heap.get_value(x), Double(1.0));

    let decision = brancher.next_decision(&SelectionContext::new(&assignments));
    assert_eq!(decision, Some(at_least(y, 5)));
}

#[test]
fn custom_search_does_not_put_a_stuck_variable_before_an_equally_active_one() {
    let mut assignments = Assignments::new();
    let x = assignments.grow(0, 10);
    let y = assignments.grow(0, 10);
    let mut brancher = custom(vec![x, y]);
    learn(&mut brancher, &assignments, vec![at_least(x, 0), at_least(y, 5)]);
    assert_eq!(brancher.heap.peek_max(), Some((x, Double(1.0))));

    let decision = brancher.next_decision(&SelectionContext::new(&assignments));

    assert_eq!(decision, Some(at_least(y, 5)));
    assert_eq!(brancher.heap.get_value(x), Double(1.0));
}

#[test]
fn custom_search_drops_a_variable_without_open_bounds() {
    let mut assignments = Assignments::new();
    let x = assignments.grow(0, 1);
    let mut brancher = custom(vec![x]);
    assignments.new_checkpoint();
    let _ = assignments.post_predicate(at_least(x, 1));
    learn(&mut brancher, &assignments, vec![at_most(x, 1)]);
    assignments.synchronise(0);
    for _ in 0..2 {
        learn(&mut brancher, &assignments, vec![equal(x, 0)]);
    }

    let decision = brancher.next_decision(&SelectionContext::new(&assignments));

    assert_eq!(decision, Some(at_most(x, 0)));
    assert_eq!(brancher.heap.num_nonremoved_elements(), 0);
}

#[test]
fn custom_search_wakes_unassigned_variables() {
    let mut assignments = Assignments::new();
    let x = assignments.grow(0, 10);
    let y = assignments.grow(0, 10);
    let mut brancher = custom(vec![x, y]);
    learn(&mut brancher, &assignments, vec![at_least(x, 5)]);
    assignments.new_checkpoint();
    let _ = assignments.post_predicate(equal(x, 6));

    let decision = brancher.next_decision(&SelectionContext::new(&assignments));
    assert_eq!(decision, Some(at_most(y, 0)));
    assert_eq!(brancher.heap.num_nonremoved_elements(), 0);

    assignments.synchronise(0);
    brancher.on_unassign_integer(x, 6);
    assert_eq!(brancher.heap.get_value(x), Double(1.0));
    let decision = brancher.next_decision(&SelectionContext::new(&assignments));
    assert_eq!(decision, Some(at_least(x, 5)));

    brancher.on_unassign_integer(y, 0);
    assert_eq!(brancher.heap.get_value(y), Double(0.0));
    assert_eq!(brancher.heap.num_nonremoved_elements(), 2);
}

#[test]
fn custom_search_has_no_decision_once_all_variables_are_assigned() {
    let mut assignments = Assignments::new();
    let x = assignments.grow(0, 10);
    let mut brancher = custom(vec![x]);
    learn(&mut brancher, &assignments, vec![at_least(x, 5)]);
    let _ = assignments.post_predicate(equal(x, 6));

    let decision = brancher.next_decision(&SelectionContext::new(&assignments));
    assert_eq!(decision, None);
    let step = brancher.examine_top(&SelectionContext::new(&assignments));
    assert_eq!(step, SearchStep::Exhausted);
}

#[test]
fn custom_search_delegates_to_its_backup() {
    let mut assignments = Assignments::new();
    let x = assignments.grow(0, 10);
    let mut brancher: CustomSearch<Double, DefaultBrancher<Double>> =
        CustomSearch::new(DefaultBrancher::default_over_all_variables(&assignments));
    brancher.on_appearance_in_conflict_predicate(at_least(x, 5));
    brancher.on_conflict();
    brancher.on_backtrack();
    brancher.on_restart();
    brancher.synchronise(&SelectionContext::new(&assignments));
    assert!(brancher.backup_brancher.should_synchronise);
    assert_eq!(brancher.backup_brancher.increment, Double(1.0 / 0.95));

    let decision = brancher.next_decision(&SelectionContext::new(&assignments));
    assert_eq!(decision, Some(at_least(x, 5)));

    let log = brancher.log_statistics(StatisticLogger { prefix: vec![] });
    assert_eq!(log[0].logger.prefix, vec!["AutonomousSearch"]);
    let events = brancher.subscribe_to_events();
    assert_eq!(events.len(), 11);
    assert_eq!(events[5], BrancherEvent::LearnedNogood);
    assert!(!brancher.is_restart_pointless());
}

#[test]
fn the_fixed_order_asks_for_no_restart() {
    let mut assignments = Assignments::new();
    let x = assignments.grow(2, 4);
    let y = assignments.grow(1, 1);
    let mut brancher = in_order(vec![y, x]);
    assert_eq!(
        brancher.next_decision(&SelectionContext::new(&assignments)),
        Some(at_most(x, 2))
    );
    assert!(brancher.is_restart_pointless());
    assert!(brancher.subscribe_to_events().is_empty());
}

#[test]
fn activity_scaling_keeps_the_order_of_the_others() {
    let mut assignments = Assignments::new();
    let x = assignments.grow(0, 10);
    let y = assignments.grow(0, 10);
    let z = assignments.grow(0, 10);
    let mut brancher = ActivityBrancher::<Double>::default_over_all_variables(&assignments);
    brancher.max_threshold = Double(4.0);
    for (variable, times) in [(x, 1), (y, 2), (z, 3)] {
        for _ in 0..times {
            brancher.on_appearance_in_conflict_predicate(at_least(variable, 5));
        }
    }
    brancher.on_appearance_in_conflict_predicate(at_least(z, 5));

    assert_eq!(brancher.heap.get_value(x), Double(0.25));
    assert_eq!(brancher.heap.get_value(y), Double(0.5));
    assert_eq!(brancher.heap.get_value(z), Double(1.0));
    let decision = brancher.next_decision(&SelectionContext::new(&assignments));
    assert_eq!(decision, Some(at_most(z, 5)));
    assert_eq!(brancher.heap.get_value(y), Double(0.5));
}

#[test]
fn custom_search_sets_fixed_values_exactly() {
    let mut brancher: CustomSearch<Fixed, IndependentVariableValueBrancher> =
        CustomSearch::new(in_order(vec![]));
    let x = DomainId { id: 3 };
    brancher.set_heap_value(x, Fixed { units: 333_333 });
    brancher.set_heap_value(x, Fixed { units: -7 });
    assert_eq!(brancher.heap.get_value(x), Fixed { units: -7 });
    assert_eq!(brancher.heap.len(), 4);
    assert_eq!(brancher.heap.num_nonremoved_elements(), 4);
}

#[test]
fn custom_search_knows_whether_a_variable_is_stuck() {
    let mut assignments = Assignments::new();
    let x = assignments.grow(0, 10);
    let y = assignments.grow(0, 10);
    let mut brancher = custom(vec![x, y]);
    assert!(brancher.has_no_stuck_variable(&SelectionContext::new(&assignments)));

    learn(&mut brancher, &assignments, vec![at_least(x, 5)]);
    assert!(brancher.has_no_stuck_variable(&SelectionContext::new(&assignments)));
    assert!(!brancher.is_variable_stuck(y, &SelectionContext::new(&assignments)));

    assignments.new_checkpoint();
    let _ = assignments.post_predicate(at_least(x, 5));
    assert!(brancher.is_variable_stuck(x, &SelectionContext::new(&assignments)));
    assert!(!brancher.has_no_stuck_variable(&SelectionContext::new(&assignments)));

    let _ = assignments.post_predicate(equal(x, 7));
    assert!(brancher.has_no_stuck_variable(&SelectionContext::new(&assignments)));
}

#[test]
fn custom_search_keeps_the_best_score_of_each_variable() {
    let mut assignments = Assignments::new();
    let x = assignments.grow(0, 10);
    let y = assignments.grow(0, 10);
    let z = assignments.grow(0, 10);
    let mut brancher = custom(vec![x, y, z]);
    learn(&mut brancher, &assignments, vec![]);
    assert_eq!(brancher.heap.len(), 0);

    learn(&mut brancher, &assignments, vec![at_least(z, 5), equal(x, 3)]);
    learn(&mut brancher, &assignments, vec![not_equal(z, 8), at_most(x, 3)]);
    learn(&mut brancher, &assignments, vec![equal(z, 9)]);

    for variable in [x, z] {
        let best = brancher.var_val_activity[&variable.id]
            .values()
            .map(|activity| activity.ge.0.max(activity.le.0))
            .fold(0.0, f64::max);
        assert_eq!(brancher.heap.get_value(variable), Double(best));
        assert!(brancher.heap.is_key_present(variable));
    }
    assert_eq!(brancher.heap.get_value(x), Double(2.0));
    assert_eq!(brancher.heap.get_value(z), Double(3.0));
    assert_eq!(brancher.heap.get_value(y), Double(0.0));
}

#[test]
fn vsid_scaling_keeps_the_order_of_predicates_below_the_threshold() {
    let mut assignments = Assignments::new();
    let x = assignments.grow(0, 10);
    let mut brancher = DefaultBrancher::<Fixed>::default_over_all_variables(&assignments);
    brancher.max_threshold = Fixed::whole(5);
    for (value, times) in [(5, 1), (6, 2), (7, 2)] {
        for _ in 0..times {
            brancher.on_appearance_in_conflict_predicate(at_least(x, value));
            assert!(brancher.variable_heap.get_value(x).less_than(brancher.max_threshold));
        }
    }
    assert_eq!(brancher.increment, Fixed { units: 200_000 });

    let mut order = Vec::new();
    for _ in 0..3 {
        let decision = brancher.next_decision(&SelectionContext::new(&assignments)).unwrap();
        order.push(decision.value);
        let predicate = at_least(x, decision.value);
        let heap = brancher.predicate_heap.get_mut(&x.id).unwrap();
        let id = brancher.predicate_id_info.get_id(predicate);
        assert!(heap.get_value(id).less_than(brancher.max_threshold));
        heap.delete_key(id);
    }
    assert_eq!(order[2], 5);
}

#[test]
fn custom_search_learns_equalities_on_unknown_variables() {
    let assignments = Assignments::new();
    let x = DomainId { id: 2 };
    let mut brancher = custom(vec![]);
    learn(&mut brancher, &assignments, vec![equal(x, 4), equal(x, 4), equal(x, -1)]);

    let values = &brancher.var_val_activity[&x.id];
    assert_eq!(values.len(), 2);
    assert_eq!((values[&4].ge, values[&4].le), (Double(2.0), Double(2.0)));
    assert_eq!((values[&-1].ge, values[&-1].le), (Double(1.0), Double(1.0)));
    assert_eq!(brancher.heap.get_value(x), Double(2.0));
    assert_eq!(brancher.heap.len(), 3);
}

#[test]
fn custom_search_makes_an_entry_for_a_variable_with_an_open_bound() {
    let mut assignments = Assignments::new();
    let x = assignments.grow(0, 10);
    let y = assignments.grow(0, 10);
    let mut brancher = custom(vec![x, y]);
    learn(&mut brancher, &assignments, vec![at_least(y, 5), equal(y, 7)]);
    brancher.heap = KeyValueHeap::new();

    brancher.refresh_heap_value_from_context(y, &SelectionContext::new(&assignments));
    assert_eq!(brancher.heap.len(), 2);
    assert!(brancher.heap.is_key_present(y));
    assert_eq!(brancher.heap.get_value(y), Double(2.0));

    let _ = assignments.post_predicate(at_least(y, 7));
    brancher.refresh_heap_value_from_context(y, &SelectionContext::new(&assignments));
    assert_eq!(brancher.heap.get_value(y), Double(1.0));

    brancher.refresh_heap_value_from_context(x, &SelectionContext::new(&Assignments::new()));
    assert!(!brancher.heap.is_key_present(x));
}

#[test]
fn activities_stay_below_the_threshold() {
    let mut assignments = Assignments::new();
    let x = assignments.grow(0, 10);
    let y = assignments.grow(0, 10);
    let threshold = Double(3.0);
    let mut vsid = DefaultBrancher::<Double>::default_over_all_variables(&assignments);
    vsid.max_threshold = threshold;
    let mut activity: VariableActivitySearch<Double, IndependentVariableValueBrancher> =
        VariableActivitySearch::new(in_order(vec![x, y]));
    activity.max_threshold = threshold;
    for round in 0..40 {
        let predicate = at_least(if round % 3 == 0 { x } else { y }, 5);
        vsid.on_appearance_in_conflict_predicate(predicate);
        activity.on_appearance_in_conflict_predicate(predicate);
        if round % 5 == 0 {
            vsid.on_conflict();
            activity.on_conflict();
        }
        assert!(vsid.variable_heap.get_value(predicate.domain).less_than(threshold));
        assert!(activity.heap.get_value(predicate.domain).less_than(threshold));
    }
    assert!(vsid.increment.less_than(Double(1.0)));
    assert!(activity.increment.less_than(Double(1.0)));
}
