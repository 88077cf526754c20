use pumpkin_search::propagation::{Priority, PropagatorId};
use pumpkin_search::propagator_queue::PropagatorQueue;
use pumpkin_search::propagator_utility::{PropagationOutcome, PropagatorUtilityFormula};
use pumpkin_search::{Fixed, Number};

/// Single-precision utilities.
#[derive(Clone, Copy, Debug, PartialEq)]
struct Single(f32);

impl Number for Single {
    fn decimal(mantissa: u64, exponent: i32) -> Self {
        Single(format!("{mantissa}e{exponent}").parse().unwrap())
    }

    fn whole(n: u128) -> Self {
        Single(n as f32)
    }

    fn greatest() -> Self {
        Single(f32::MAX)
    }

    fn plus(self, other: Self) -> Self {
        Single(self.0 + other.0)
    }

    fn minus(self, other: Self) -> Self {
        Single(self.0 - other.0)
    }

    fn times(self, other: Self) -> Self {
        Single(self.0 * other.0)
    }

    fn over(self, other: Self) -> Self {
        Single(self.0 / other.0)
    }

    fn magnitude(self) -> Self {
        Single(self.0.abs())
    }

    fn less_than(self, other: Self) -> bool {
        self.0 < other.0
    }

    // What each operation is specified to return is what it returns.

    fn decimal_spec(mantissa: u64, exponent: i32) -> Self {
        Self::decimal(mantissa, exponent)
    }

    fn whole_spec(n: u128) -> Self {
        Self::whole(n)
    }

    fn greatest_spec() -> Self {
        Self::greatest()
    }

    fn plus_spec(self, other: Self) -> Self {
        self.plus(other)
    }

    fn minus_spec(self, other: Self) -> Self {
        self.minus(other)
    }

    fn times_spec(self, other: Self) -> Self {
        self.times(other)
    }

    fn over_spec(self, other: Self) -> Self {
        self.over(other)
    }

    fn magnitude_spec(self) -> Self {
        self.magnitude()
    }

    fn less_spec(self, other: Self) -> bool {
        self.less_than(other)
    }
}

fn outcome(time_micros: u128, found_conflict: bool, total_removed_values: u32) -> PropagationOutcome {
    PropagationOutcome { time_micros, found_conflict, total_removed_values }
}

#[test]
fn test_ordering() {
    let mut queue = PropagatorQueue::<Single>::default();

    queue.enqueue_propagator(PropagatorId(1), Priority::High);
    queue.enqueue_propagator(PropagatorId(0), Priority::Medium);
    queue.enqueue_propagator(PropagatorId(3), Priority::VeryLow);
    queue.enqueue_propagator(PropagatorId(4), Priority::Low);

    assert_eq!(PropagatorId(1), queue.pop().unwrap());
    assert_eq!(PropagatorId(0), queue.pop().unwrap());
    assert_eq!(PropagatorId(4), queue.pop().unwrap());
    assert_eq!(PropagatorId(3), queue.pop().unwrap());
    assert_eq!(None, queue.pop());
}

#[test]
fn test_dynamic_priority() {
    let mut queue = PropagatorQueue::<Single>::default();

    queue.enqueue_propagator(PropagatorId(1), Priority::Medium);
    queue.enqueue_propagator(PropagatorId(0), Priority::High);

    assert_eq!(PropagatorId(0), queue.pop().unwrap());
    assert_eq!(PropagatorId(1), queue.pop().unwrap());
    assert_eq!(None, queue.pop());

    // Propagator `0` is really bad and `1` is really good.
    queue.record_propagation_outcome(PropagatorId(0), outcome(1_000_000, false, 0));
    queue.record_propagation_outcome(PropagatorId(1), outcome(2_000_000, true, 5));

    let priority = queue.calculate_dynamic_priority(PropagatorId(1), Priority::Medium);
    queue.enqueue_propagator(PropagatorId(1), priority);
    let priority = queue.calculate_dynamic_priority(PropagatorId(0), Priority::High);
    queue.enqueue_propagator(PropagatorId(0), priority);
    assert_eq!(PropagatorId(1), queue.pop().unwrap());
    assert_eq!(PropagatorId(0), queue.pop().unwrap());

    assert_eq!(None, queue.pop());
}

#[test]
fn test_custom_utility_formulas() {
    // Conflicts over time.
    let mut queue = PropagatorQueue::<Single>::default();
    queue.propagator_utility_formula = PropagatorUtilityFormula::ConflictRate;
    queue.record_propagation_outcome(PropagatorId(0), outcome(999, true, 5));
    // 0.8 * 0.0 + 0.2 * (1.0 / (999.0 + 1.0)) = 0.0002
    assert_eq!(queue.propagator_utility.at(PropagatorId(0)), Single(0.0002));

    // Removed values, with another decay.
    let mut queue = PropagatorQueue::<Single>::default();
    queue.propagator_utility_formula = PropagatorUtilityFormula::Prunings;
    queue.propagator_utility_decay = Single(0.5);
    queue.record_propagation_outcome(PropagatorId(0), outcome(10_000_000, false, 10));
    // 0.5 * 0.0 + 0.5 * 10.0 = 5.0
    assert_eq!(queue.propagator_utility.at(PropagatorId(0)), Single(5.0));
}

#[test]
fn every_formula_measures_a_run() {
    let run = outcome(4, true, 5);
    let quiet = outcome(4, false, 5);
    let weight = Fixed::whole(1000);
    let expected = [
        (PropagatorUtilityFormula::Default, 201_000_000, 1_000_000),
        (PropagatorUtilityFormula::ConflictRate, 200_000, 0),
        (PropagatorUtilityFormula::PruningRate, 1_000_000, 1_000_000),
        (PropagatorUtilityFormula::Conflicts, 1_000_000, 0),
        (PropagatorUtilityFormula::Prunings, 5_000_000, 5_000_000),
    ];
    for (formula, with_conflict, without) in expected {
        assert_eq!(formula.measure(run, weight), Fixed { units: with_conflict });
        assert_eq!(formula.measure(quiet, weight), Fixed { units: without });
    }
}

#[test]
fn formulas_are_read_in_any_case_and_with_either_separator() {
    let read = PropagatorUtilityFormula::from_str;
    assert_eq!(read("Default"), Some(PropagatorUtilityFormula::Default));
    assert_eq!(read("conflict-rate"), Some(PropagatorUtilityFormula::ConflictRate));
    assert_eq!(read("CONFLICT_RATE"), Some(PropagatorUtilityFormula::ConflictRate));
    assert_eq!(read("Pruning_Rate"), Some(PropagatorUtilityFormula::PruningRate));
    assert_eq!(read("pruning-rate"), Some(PropagatorUtilityFormula::PruningRate));
    assert_eq!(read("CONFLICTS"), Some(PropagatorUtilityFormula::Conflicts));
    assert_eq!(read("prunings"), Some(PropagatorUtilityFormula::Prunings));
    assert_eq!(read("conflict rate"), None);
    assert_eq!(read("conflictrate"), None);
    assert_eq!(read(""), None);
    assert_eq!(read("d\u{e9}fault"), None);
}

#[test]
fn lower_case_names_are_read_as_they_are() {
    let read = PropagatorUtilityFormula::from_lowercase;
    assert_eq!(read("conflict_rate"), Some(PropagatorUtilityFormula::ConflictRate));
    assert_eq!(read("Conflict_rate"), None);
}

#[test]
fn settings_fall_back_on_the_defaults() {
    assert_eq!(
        PropagatorUtilityFormula::default(),
        PropagatorUtilityFormula::Default
    );
    assert_eq!(PropagatorUtilityFormula::from_setting(None), None);
    assert_eq!(
        PropagatorUtilityFormula::from_setting(Some("Prunings")),
        Some(PropagatorUtilityFormula::Prunings)
    );
    assert_eq!(
        PropagatorUtilityFormula::from_setting(Some("pRUNING_Rate")),
        Some(PropagatorUtilityFormula::PruningRate)
    );
    assert_eq!(PropagatorUtilityFormula::from_setting(Some("rate")), None);
    assert_eq!(PropagatorUtilityFormula::decay_or_default::<Single>(None), Single(0.8));
    assert_eq!(
        PropagatorUtilityFormula::decay_or_default(Some(Single(0.5))),
        Single(0.5)
    );
    assert_eq!(
        PropagatorUtilityFormula::conflict_weight_or_default::<Single>(None),
        Single(1000.0)
    );
    assert_eq!(
        PropagatorUtilityFormula::conflict_weight_or_default(Some(Single(2.0))),
        Single(2.0)
    );
}

#[test]
fn a_waiting_propagator_is_not_enqueued_again() {
    let mut queue = PropagatorQueue::<Single>::default();
    assert!(queue.is_empty());
    assert!(!queue.is_propagator_enqueued(PropagatorId(7)));

    queue.enqueue_propagator(PropagatorId(7), Priority::Low);
    queue.enqueue_propagator(PropagatorId(7), Priority::High);
    assert!(queue.is_propagator_enqueued(PropagatorId(7)));
    assert!(!queue.is_propagator_enqueued(PropagatorId(6)));
    assert_eq!(queue.num_enqueued, 1);
    assert!(!queue.is_empty());

    assert_eq!(queue.pop(), Some(PropagatorId(7)));
    assert!(!queue.is_propagator_enqueued(PropagatorId(7)));
    assert_eq!(queue.pop(), None);
    assert!(queue.is_empty());
}

#[test]
fn propagators_of_one_priority_run_in_the_order_of_arrival() {
    let mut queue = PropagatorQueue::<Single>::new(4);
    for id in [5, 2, 9] {
        queue.enqueue_propagator(PropagatorId(id), Priority::Low);
    }
    queue.enqueue_propagator(PropagatorId(1), Priority::VeryLow);
    assert_eq!(queue.pop(), Some(PropagatorId(5)));
    queue.enqueue_propagator(PropagatorId(4), Priority::Medium);
    queue.enqueue_propagator(PropagatorId(5), Priority::Low);
    let mut order = Vec::new();
    while let Some(id) = queue.pop() {
        order.push(id.0);
    }
    assert_eq!(order, vec![4, 2, 9, 5, 1]);
}

#[test]
fn clearing_forgets_who_waits() {
    let mut queue = PropagatorQueue::<Single>::default();
    queue.enqueue_propagator(PropagatorId(1), Priority::High);
    queue.enqueue_propagator(PropagatorId(2), Priority::VeryLow);
    queue.clear();
    assert!(queue.is_empty());
    assert_eq!(queue.pop(), None);
    assert!(!queue.is_propagator_enqueued(PropagatorId(1)));
    queue.enqueue_propagator(PropagatorId(1), Priority::Low);
    assert_eq!(queue.pop(), Some(PropagatorId(1)));
}

#[test]
fn changes_of_priority_are_counted_if_wanted() {
    let mut queue = PropagatorQueue::<Single>::default();
    queue.dynamic_priority_adaptation = true;
    queue.enqueue_propagator(PropagatorId(1), Priority::High);
    assert_eq!(queue.num_priority_changes, 0);
    queue.enqueue_propagator(PropagatorId(1), Priority::Low);
    assert_eq!(queue.num_priority_changes, 1);
    queue.enqueue_propagator(PropagatorId(1), Priority::Low);
    assert_eq!(queue.num_priority_changes, 1);
}

#[test]
fn priorities_from_a_previous_run_take_precedence() {
    let mut queue = PropagatorQueue::<Single>::default();
    queue.has_previous_static_priority = true;
    queue
        .previous_static_priority
        .accomodate(PropagatorId(1), (Single(0.0), Priority::VeryLow));
    queue
        .previous_static_priority
        .set(PropagatorId(1), (Single(3.0), Priority::High));

    assert_eq!(
        queue.calculate_dynamic_priority(PropagatorId(1), Priority::Low),
        Priority::High
    );
    queue.record_propagation_outcome(PropagatorId(1), outcome(0, true, 1));
    assert_eq!(queue.propagator_utility.len(), 0);

    queue.enqueue_propagator(PropagatorId(0), Priority::High);
    queue.enqueue_propagator(PropagatorId(1), Priority::Low);
    queue.enqueue_propagator(PropagatorId(1), Priority::Low);
    assert_eq!(queue.num_enqueued, 3);
    assert_eq!(queue.pop(), Some(PropagatorId(1)));
    assert!(!queue.is_propagator_enqueued(PropagatorId(1)));
    assert_eq!(queue.pop(), Some(PropagatorId(1)));
    assert_eq!(queue.pop(), Some(PropagatorId(0)));
    assert_eq!(queue.pop(), None);
}

#[test]
fn bins_are_ranked_by_their_averages() {
    let mut queue = PropagatorQueue::<Fixed>::default();
    queue.propagator_utility_formula = PropagatorUtilityFormula::Prunings;
    queue.propagator_utility_decay = Fixed::whole(0);
    // Bin 3 becomes the best one.
    queue.record_propagation_outcome(PropagatorId(0), outcome(0, false, 100));
    let priority = queue.calculate_dynamic_priority(PropagatorId(0), Priority::VeryLow);
    assert_eq!(priority, Priority::High);
    assert_eq!(queue.bin_counts, [0, 0, 0, 1]);
    assert_eq!(
        queue.sorted_bins,
        [
            (3, Fixed::whole(100)),
            (0, Fixed::whole(10)),
            (1, Fixed::whole(1)),
            (2, Fixed { units: 100_000 }),
        ]
    );

    // A second propagator of the bin changes its average, not the count of the first.
    queue.record_propagation_outcome(PropagatorId(1), outcome(0, false, 20));
    let priority = queue.calculate_dynamic_priority(PropagatorId(1), Priority::VeryLow);
    assert_eq!(priority, Priority::Medium);
    assert_eq!(queue.bin_averages[3], Fixed::whole(60));
    queue.record_propagation_outcome(PropagatorId(0), outcome(0, false, 0));
    assert_eq!(queue.bin_sums[3], Fixed::whole(20));
    assert_eq!(queue.bin_averages[3], Fixed::whole(10));
    // Bins with the same average are ranked by number.
    assert_eq!(queue.sorted_bins[0].0, 0);
    assert_eq!(queue.sorted_bins[1].0, 3);
    let priority = queue.calculate_dynamic_priority(PropagatorId(0), Priority::High);
    assert_eq!(priority, Priority::VeryLow);
    assert_eq!(queue.bin_counts, [0, 0, 0, 2]);
}

#[test]
fn utilities_are_logged_in_order() {
    let mut queue = PropagatorQueue::<Fixed>::default();
    queue.propagator_utility_formula = PropagatorUtilityFormula::Conflicts;
    queue.record_propagation_outcome(PropagatorId(1), outcome(0, true, 0));
    let log = queue.log_statistics();
    assert_eq!(log.number_of_propagators, 2);
    assert_eq!(
        log.utilities,
        vec![
            (PropagatorId(0), Fixed::whole(0)),
            (PropagatorId(1), Fixed { units: 200_000 }),
        ]
    );
}

#[test]
fn a_clone_of_a_queue_goes_its_own_way() {
    let mut queue = PropagatorQueue::<Single>::default();
    queue.enqueue_propagator(PropagatorId(3), Priority::Low);
    queue.enqueue_propagator(PropagatorId(1), Priority::Low);
    queue.record_propagation_outcome(PropagatorId(1), outcome(0, true, 0));
    let mut copy = queue.clone();

    assert_eq!(copy.pop(), Some(PropagatorId(3)));
    assert_eq!(copy.pop(), Some(PropagatorId(1)));
    assert_eq!(copy.pop(), None);
    assert_eq!(queue.num_enqueued, 2);
    assert_eq!(
        copy.propagator_utility.at(PropagatorId(1)),
        queue.propagator_utility.at(PropagatorId(1))
    );
}

#[test]
fn changes_of_priority_are_counted_against_the_latest_counted_one() {
    let mut queue = PropagatorQueue::<Single>::default();
    queue.enqueue_propagator(PropagatorId(1), Priority::High);
    queue.dynamic_priority_adaptation = true;
    queue.enqueue_propagator(PropagatorId(1), Priority::Low);
    assert_eq!(queue.num_priority_changes, 0);
    queue.dynamic_priority_adaptation = false;
    queue.enqueue_propagator(PropagatorId(1), Priority::High);
    queue.dynamic_priority_adaptation = true;
    let _ = queue.pop();
    queue.clear();
    let _ = queue.calculate_dynamic_priority(PropagatorId(1), Priority::High);
    queue.enqueue_propagator(PropagatorId(2), Priority::High);
    queue.enqueue_propagator(PropagatorId(1), Priority::Low);
    assert_eq!(queue.num_priority_changes, 0);
    queue.enqueue_propagator(PropagatorId(1), Priority::High);
    assert_eq!(queue.num_priority_changes, 1);
}

#[test]
fn bins_sum_up_the_utilities_of_their_propagators() {
    let mut queue = PropagatorQueue::<Fixed>::default();
    queue.propagator_utility_formula = PropagatorUtilityFormula::Prunings;
    for (id, removed) in [(0, 30), (1, 7), (2, 11), (0, 4)] {
        queue.record_propagation_outcome(PropagatorId(id), outcome(0, false, removed));
        if id < 2 {
            let _ = queue.calculate_dynamic_priority(PropagatorId(id), Priority::Low);
            let _ = queue.calculate_dynamic_priority(PropagatorId(id), Priority::High);
        }
    }
    let first = queue.propagator_utility.at(PropagatorId(0));
    let second = queue.propagator_utility.at(PropagatorId(1));
    assert_eq!(queue.bin_counts, [0, 0, 2, 0]);
    assert_eq!(queue.bin_sums[2], first.plus(second));
    assert_eq!(queue.bin_averages[2], first.plus(second).over(Fixed::whole(2)));
    assert_eq!(queue.bin_averages[0], Fixed::whole(10));
}

#[test]
fn single_precision_sums_are_exact_up_to_their_rounding() {
    for (decay, is_exact) in [(0.5, true), (0.8, false)] {
        let mut queue = PropagatorQueue::<Single>::default();
        queue.propagator_utility_formula = PropagatorUtilityFormula::Prunings;
        queue.propagator_utility_decay = Single(decay);
        for id in 0..3 {
            let _ = queue.calculate_dynamic_priority(PropagatorId(id), Priority::Low);
        }
        let mut rounded = 0.0;
        for (id, removed) in [(0, 30), (1, 7), (2, 11), (0, 4), (2, 3), (1, 1)] {
            let sum = f64::from(queue.bin_sums[2].0);
            let old_utility = f64::from(queue.propagator_utility.at(PropagatorId(id)).0);
            queue.record_propagation_outcome(PropagatorId(id), outcome(0, false, removed));
            let utility = f64::from(queue.propagator_utility.at(PropagatorId(id)).0);
            rounded += f64::from(queue.bin_sums[2].0) - (sum - old_utility + utility);
        }
        let total: f64 = (0..3)
            .map(|id| f64::from(queue.propagator_utility.at(PropagatorId(id)).0))
            .sum();
        assert_eq!(f64::from(queue.bin_sums[2].0), total + rounded);
        assert_eq!(queue.bin_averages[2], Single(queue.bin_sums[2].0 / 3.0));
        if is_exact {
            assert_eq!(rounded, 0.0);
        }
    }
}
