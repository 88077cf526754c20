use pumpkin_search::assignments::{Assignments, EmptyDomain, SelectionContext};
use pumpkin_search::branching::{InDomainMin, InDomainSplit};
use pumpkin_search::predicates::{Predicate, PredicateId, PredicateIdGenerator, PredicateType};
use pumpkin_search::variables::DomainId;
use pumpkin_search::{Fixed, Number, OrderedNumber};

fn predicate(domain: DomainId, predicate_type: PredicateType, value: i32) -> Predicate {
    Predicate::new(domain, predicate_type, value)
}

#[test]
fn predicates_narrow_domains() {
    let mut assignments = Assignments::new();
    let x = assignments.grow(0, 10);
    assert_eq!(assignments.post_predicate(predicate(x, PredicateType::LowerBound, 2)), Ok(()));
    assert_eq!(assignments.post_predicate(predicate(x, PredicateType::NotEqual, 5)), Ok(()));
    assert_eq!(assignments.post_predicate(predicate(x, PredicateType::NotEqual, 10)), Ok(()));
    assert_eq!(assignments.lower_bound(x), 2);
    assert_eq!(assignments.upper_bound(x), 9);
    assert!(!assignments.contains(x, 5));
    assert!(assignments.contains(x, 6));

    assert_eq!(
        assignments.post_predicate(predicate(x, PredicateType::Equal, 5)),
        Err(EmptyDomain)
    );
    assert_eq!(
        assignments.post_predicate(predicate(x, PredicateType::UpperBound, 1)),
        Err(EmptyDomain)
    );
    assert_eq!(assignments.lower_bound(x), 2);
    assert!(!assignments.are_all_variables_assigned());
    assert_eq!(assignments.post_predicate(predicate(x, PredicateType::Equal, 6)), Ok(()));
    assert!(assignments.are_all_variables_assigned());
}

#[test]
fn predicates_are_settled_by_domains() {
    let mut assignments = Assignments::new();
    let x = assignments.grow(3, 7);
    let _ = assignments.post_predicate(predicate(x, PredicateType::NotEqual, 5));
    let value = |predicate_type, value| {
        assignments.evaluate_predicate(predicate(x, predicate_type, value))
    };
    assert_eq!(value(PredicateType::LowerBound, 3), Some(true));
    assert_eq!(value(PredicateType::LowerBound, 4), None);
    assert_eq!(value(PredicateType::LowerBound, 8), Some(false));
    assert_eq!(value(PredicateType::UpperBound, 7), Some(true));
    assert_eq!(value(PredicateType::UpperBound, 2), Some(false));
    assert_eq!(value(PredicateType::Equal, 5), Some(false));
    assert_eq!(value(PredicateType::NotEqual, 5), Some(true));
    assert_eq!(value(PredicateType::Equal, 6), None);
    assert_eq!(value(PredicateType::NotEqual, 6), None);
}

#[test]
fn checkpoints_bring_domains_back() {
    let mut assignments = Assignments::new();
    let x = assignments.grow(0, 10);
    assignments.new_checkpoint();
    let _ = assignments.post_predicate(predicate(x, PredicateType::LowerBound, 4));
    assignments.new_checkpoint();
    let _ = assignments.post_predicate(predicate(x, PredicateType::LowerBound, 8));
    assignments.synchronise(1);
    assert_eq!(assignments.lower_bound(x), 4);
    assignments.synchronise(0);
    assert_eq!(assignments.lower_bound(x), 0);
}

#[test]
fn negations_are_their_own_inverse() {
    let x = DomainId { id: 0 };
    for predicate_type in [
        PredicateType::LowerBound,
        PredicateType::UpperBound,
        PredicateType::Equal,
        PredicateType::NotEqual,
    ] {
        let positive = predicate(x, predicate_type, 4);
        assert_ne!(positive.negated(), positive);
        assert_eq!(positive.negated().negated(), positive);
    }
    assert_eq!(
        predicate(x, PredicateType::LowerBound, 4).negated(),
        predicate(x, PredicateType::UpperBound, 3)
    );
}

#[test]
fn predicates_get_one_identifier_each() {
    let x = DomainId { id: 0 };
    let mut ids = PredicateIdGenerator::new();
    let first = predicate(x, PredicateType::LowerBound, i32::MIN);
    let second = predicate(x, PredicateType::UpperBound, i32::MIN);
    assert!(!ids.has_id_for_predicate(first));
    assert_eq!(ids.get_id(first), PredicateId { id: 0 });
    assert_eq!(ids.get_id(second), PredicateId { id: 1 });
    assert_eq!(ids.get_id(first), PredicateId { id: 0 });
    assert!(ids.has_id_for_predicate(second));
    assert_eq!(ids.get_predicate(PredicateId { id: 1 }), Some(second));
    assert_eq!(ids.get_predicate(PredicateId { id: 2 }), None);
}

#[test]
fn values_are_selected_from_the_lower_end() {
    let mut assignments = Assignments::new();
    let x = assignments.grow(i32::MIN, i32::MAX);
    let y = assignments.grow(-3, 2);
    let context = SelectionContext::new(&assignments);
    assert_eq!(
        InDomainMin.select_value(&context, y),
        predicate(y, PredicateType::UpperBound, -3)
    );
    assert_eq!(
        InDomainSplit.select_value(&context, y),
        predicate(y, PredicateType::UpperBound, -1)
    );
    assert_eq!(
        InDomainSplit.select_value(&context, x),
        predicate(x, PredicateType::UpperBound, -1)
    );
}

#[test]
fn fixed_numbers_round_down_and_saturate() {
    assert_eq!(Fixed::decimal(95, -2), Fixed { units: 950_000 });
    assert_eq!(Fixed::decimal(1, -7), Fixed { units: 0 });
    assert_eq!(Fixed::decimal(3, 2), Fixed::whole(300));
    assert_eq!(Fixed::decimal(1, 100), Fixed::greatest());
    assert_eq!(Fixed::whole(1).over(Fixed::whole(3)), Fixed { units: 333_333 });
    assert_eq!(
        Fixed::whole(0).minus(Fixed::whole(1)).over(Fixed::whole(3)),
        Fixed { units: -333_334 }
    );
    assert_eq!(Fixed::whole(1).over(Fixed::whole(0)), Fixed::greatest());
    assert_eq!(Fixed::lowest().magnitude(), Fixed::greatest());
    assert_eq!(Fixed::greatest().plus(Fixed::whole(1)), Fixed::greatest());
    assert_eq!(Fixed::whole(2).times(Fixed { units: 250_000 }), Fixed { units: 500_000 });
    assert!(Fixed::lowest().less_than(Fixed::whole(0)));
}
