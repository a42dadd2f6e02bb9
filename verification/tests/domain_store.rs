use pumpkin_solver::basic_types::domain_id::DomainId;
use pumpkin_solver::basic_types::predicate::Predicate;
use pumpkin_solver::engine::assignments_integer::AssignmentsInteger;
use pumpkin_solver::engine::assignments_view::EmptyDomain;
use pumpkin_solver::engine::assignments_view::ReasonRef;

fn store_with(domains: &[(i32, i32)]) -> (AssignmentsInteger, Vec<DomainId>) {
    let mut store = AssignmentsInteger::new();
    let mut ids = Vec::new();
    for (lower, upper) in domains {
        ids.push(store.grow(*lower, *upper));
    }
    (store, ids)
}

#[test]
fn a_new_variable_has_the_bounds_it_was_given() {
    let (store, ids) = store_with(&[(0, 5), (-3, 3)]);
    assert_eq!(2, store.num_domains());
    assert_eq!(DomainId::new(1), ids[1]);
    assert_eq!(0, store.get_lower_bound(ids[0]));
    assert_eq!(5, store.get_upper_bound(ids[0]));
    assert_eq!(-3, store.get_initial_lower_bound(ids[1]));
    assert_eq!(3, store.get_initial_upper_bound(ids[1]));
    assert_eq!(0, store.num_trail_entries());
    assert!(store.is_value_in_domain(ids[1], 0));
    assert!(!store.is_value_in_domain(ids[1], 4));
}

#[test]
fn tightening_a_lower_bound_writes_one_trail_entry() {
    let (mut store, ids) = store_with(&[(0, 5)]);
    let x = ids[0];
    assert_eq!(Ok(()), store.tighten_lower_bound(x, 2, Some(ReasonRef(7))));
    assert_eq!(2, store.get_lower_bound(x));
    assert_eq!(5, store.get_upper_bound(x));
    assert_eq!(1, store.num_trail_entries());
    let entry = store.get_trail_entry(0);
    assert_eq!(Predicate::LowerBound { domain_id: x, lower_bound: 2 }, entry.predicate);
    assert_eq!(Some(ReasonRef(7)), entry.reason);
    assert_eq!(0, entry.decision_level);
    assert_eq!(0, entry.old_lower_bound);
    assert_eq!(5, entry.old_upper_bound);
}

#[test]
fn tightening_a_lower_bound_twice_is_tightening_it_once() {
    let (mut store, ids) = store_with(&[(0, 5)]);
    let x = ids[0];
    assert_eq!(Ok(()), store.tighten_lower_bound(x, 3, None));
    assert_eq!(Ok(()), store.tighten_lower_bound(x, 3, None));
    assert_eq!(1, store.num_trail_entries());
    assert_eq!(3, store.get_lower_bound(x));
    assert_eq!(Ok(()), store.tighten_lower_bound(x, 1, None));
    assert_eq!(1, store.num_trail_entries());
    assert_eq!(3, store.get_lower_bound(x));
}

#[test]
fn tightening_past_the_other_bound_fails_and_changes_nothing() {
    let (mut store, ids) = store_with(&[(0, 5)]);
    let x = ids[0];
    assert_eq!(Err(EmptyDomain), store.tighten_lower_bound(x, 6, None));
    assert_eq!(Err(EmptyDomain), store.tighten_upper_bound(x, -1, None));
    assert_eq!(0, store.get_lower_bound(x));
    assert_eq!(5, store.get_upper_bound(x));
    assert_eq!(0, store.num_trail_entries());
}

#[test]
fn a_bound_that_lands_on_holes_moves_on_to_the_next_value() {
    let (mut store, ids) = store_with(&[(0, 10)]);
    let x = ids[0];
    assert_eq!(Ok(()), store.remove_value_from_domain(x, 4, None));
    assert_eq!(Ok(()), store.remove_value_from_domain(x, 5, None));
    assert_eq!(Ok(()), store.remove_value_from_domain(x, 7, None));
    assert_eq!(Ok(()), store.tighten_lower_bound(x, 4, None));
    assert_eq!(6, store.get_lower_bound(x));
    assert_eq!(Ok(()), store.tighten_upper_bound(x, 7, None));
    assert_eq!(6, store.get_upper_bound(x));
    assert!(store.is_domain_assigned(x));
}

#[test]
fn removing_a_value_outside_the_bounds_does_nothing() {
    let (mut store, ids) = store_with(&[(0, 5)]);
    let x = ids[0];
    assert_eq!(Ok(()), store.remove_value_from_domain(x, -1, None));
    assert_eq!(Ok(()), store.remove_value_from_domain(x, 6, None));
    assert_eq!(0, store.num_trail_entries());
    assert_eq!(0, store.get_lower_bound(x));
    assert_eq!(5, store.get_upper_bound(x));
    assert_eq!(0, store.get_num_holes(x));
}

#[test]
fn removing_a_bound_moves_it_and_removing_an_inner_value_makes_a_hole() {
    let (mut store, ids) = store_with(&[(0, 5)]);
    let x = ids[0];
    assert_eq!(Ok(()), store.remove_value_from_domain(x, 1, None));
    assert_eq!(1, store.get_num_holes(x));
    assert_eq!(
        Predicate::NotEqual { domain_id: x, not_equal_constant: 1 },
        store.get_trail_entry(0).predicate
    );
    assert_eq!(Ok(()), store.remove_value_from_domain(x, 0, None));
    assert_eq!(2, store.get_lower_bound(x));
    assert_eq!(
        Predicate::LowerBound { domain_id: x, lower_bound: 1 },
        store.get_trail_entry(1).predicate
    );
    assert_eq!(Ok(()), store.remove_value_from_domain(x, 5, None));
    assert_eq!(4, store.get_upper_bound(x));
    assert_eq!(Ok(()), store.remove_value_from_domain(x, 1, None));
    assert_eq!(3, store.num_trail_entries());
}

#[test]
fn the_last_value_of_a_domain_cannot_be_removed() {
    let (mut store, ids) = store_with(&[(3, 3)]);
    let x = ids[0];
    assert_eq!(Err(EmptyDomain), store.remove_value_from_domain(x, 3, None));
    assert_eq!(3, store.get_lower_bound(x));
    assert_eq!(0, store.num_trail_entries());
}

#[test]
fn an_assignment_tightens_both_bounds() {
    let (mut store, ids) = store_with(&[(0, 5)]);
    let x = ids[0];
    assert_eq!(Ok(()), store.remove_value_from_domain(x, 2, None));
    assert_eq!(Err(EmptyDomain), store.make_assignment(x, 2, None));
    assert_eq!(Err(EmptyDomain), store.make_assignment(x, 9, None));
    assert_eq!(1, store.num_trail_entries());
    assert_eq!(Ok(()), store.make_assignment(x, 3, None));
    assert_eq!(3, store.get_lower_bound(x));
    assert_eq!(3, store.get_upper_bound(x));
    assert_eq!(3, store.num_trail_entries());
    assert_eq!(Ok(()), store.make_assignment(x, 3, None));
    assert_eq!(3, store.num_trail_entries());
}

#[test]
fn synchronising_restores_the_domains_of_the_level() {
    let (mut store, ids) = store_with(&[(0, 10), (0, 10)]);
    let (x, y) = (ids[0], ids[1]);
    assert_eq!(Ok(()), store.tighten_lower_bound(x, 1, None));
    store.increase_decision_level();
    assert_eq!(Ok(()), store.tighten_upper_bound(y, 8, None));
    assert_eq!(Ok(()), store.remove_value_from_domain(x, 5, None));
    store.increase_decision_level();
    assert_eq!(Ok(()), store.tighten_lower_bound(x, 5, None));
    assert_eq!(6, store.get_lower_bound(x));
    assert_eq!(2, store.get_decision_level());
    assert_eq!(4, store.num_trail_entries());
    assert_eq!(1, store.get_trail_length_at_level(0));
    assert_eq!(3, store.get_trail_length_at_level(1));
    assert_eq!(4, store.get_trail_length_at_level(2));

    store.synchronise(1);
    assert_eq!(1, store.get_decision_level());
    assert_eq!(3, store.num_trail_entries());
    assert_eq!(1, store.get_lower_bound(x));
    assert_eq!(8, store.get_upper_bound(y));
    assert!(!store.is_value_in_domain(x, 5));

    store.synchronise(1);
    assert_eq!(1, store.get_decision_level());
    assert_eq!(3, store.num_trail_entries());

    store.synchronise(0);
    assert_eq!(0, store.get_decision_level());
    assert_eq!(1, store.num_trail_entries());
    assert_eq!(1, store.get_lower_bound(x));
    assert_eq!(10, store.get_upper_bound(y));
    assert!(store.is_value_in_domain(x, 5));
    assert_eq!(0, store.get_num_holes(x));

    store.synchronise(7);
    assert_eq!(0, store.get_decision_level());
    assert_eq!(1, store.num_trail_entries());
}

#[test]
fn bounds_can_be_read_at_every_point_of_the_trail() {
    let (mut store, ids) = store_with(&[(0, 10), (0, 10)]);
    let (x, y) = (ids[0], ids[1]);
    assert_eq!(Ok(()), store.tighten_lower_bound(x, 2, None));
    assert_eq!(Ok(()), store.tighten_upper_bound(y, 7, None));
    assert_eq!(Ok(()), store.tighten_lower_bound(x, 4, None));
    assert_eq!(Ok(()), store.tighten_upper_bound(x, 6, None));
    assert_eq!(0, store.get_lower_bound_after(x, 0));
    assert_eq!(2, store.get_lower_bound_after(x, 1));
    assert_eq!(2, store.get_lower_bound_after(x, 2));
    assert_eq!(4, store.get_lower_bound_after(x, 3));
    assert_eq!(4, store.get_lower_bound_after(x, 4));
    assert_eq!(10, store.get_upper_bound_after(x, 3));
    assert_eq!(6, store.get_upper_bound_after(x, 4));
    assert_eq!(10, store.get_upper_bound_after(y, 1));
    assert_eq!(7, store.get_upper_bound_after(y, 2));
    assert_eq!(2, store.get_lower_bound_at_trail_position(x, 0));
    assert_eq!(4, store.get_lower_bound_at_trail_position(x, 2));
    assert_eq!(7, store.get_upper_bound_at_trail_position(y, 1));
    for n in 0..=4 {
        assert!(store.get_lower_bound_after(x, n) <= store.get_upper_bound_after(x, n));
        assert!(store.get_lower_bound_after(y, n) <= store.get_upper_bound_after(y, n));
    }
}

#[test]
fn predicates_are_judged_by_the_domain() {
    let (mut store, ids) = store_with(&[(0, 5)]);
    let x = ids[0];
    assert!(store.does_predicate_hold(&Predicate::LowerBound { domain_id: x, lower_bound: 0 }));
    assert!(!store.does_predicate_hold(&Predicate::LowerBound { domain_id: x, lower_bound: 1 }));
    assert!(store.does_predicate_hold(&Predicate::UpperBound { domain_id: x, upper_bound: 5 }));
    assert!(store.does_predicate_hold(&Predicate::NotEqual { domain_id: x, not_equal_constant: 6 }));
    assert!(!store.does_predicate_hold(&Predicate::NotEqual { domain_id: x, not_equal_constant: 3 }));
    assert!(!store.does_predicate_hold(&Predicate::Equal { domain_id: x, equality_constant: 3 }));
    assert!(store.does_predicate_hold(&Predicate::True));
    assert!(!store.does_predicate_hold(&Predicate::False));
    assert_eq!(Ok(()), store.make_assignment(x, 3, None));
    assert!(store.does_predicate_hold(&Predicate::Equal { domain_id: x, equality_constant: 3 }));
    assert!(store.does_predicate_hold_after(&Predicate::LowerBound { domain_id: x, lower_bound: 3 }, 1));
    assert!(!store.does_predicate_hold_after(&Predicate::LowerBound { domain_id: x, lower_bound: 3 }, 0));
}

#[test]
fn a_predicate_and_its_negation_split_the_values() {
    let x = DomainId::new(0);
    assert_eq!(
        Predicate::UpperBound { domain_id: x, upper_bound: 2 },
        Predicate::LowerBound { domain_id: x, lower_bound: 3 }.negate()
    );
    assert_eq!(
        Predicate::LowerBound { domain_id: x, lower_bound: 4 },
        Predicate::UpperBound { domain_id: x, upper_bound: 3 }.negate()
    );
    assert_eq!(Predicate::False, Predicate::LowerBound { domain_id: x, lower_bound: i32::MIN }.negate());
    assert_eq!(Predicate::False, Predicate::UpperBound { domain_id: x, upper_bound: i32::MAX }.negate());
    assert_eq!(
        Predicate::Equal { domain_id: x, equality_constant: 3 },
        Predicate::NotEqual { domain_id: x, not_equal_constant: 3 }.negate()
    );
    assert_eq!(Predicate::True, Predicate::trivially_false().negate());
    assert_eq!(Predicate::False, Predicate::trivially_true().negate());
    assert_eq!(Some(x), Predicate::Equal { domain_id: x, equality_constant: 3 }.get_domain());
    assert_eq!(None, Predicate::True.get_domain());
}

#[test]
fn a_domain_is_described_by_its_bounds_and_its_holes() {
    let mut assignments = AssignmentsInteger::new();
    let x = assignments.grow(0, 6);
    assert!(assignments.remove_value_from_domain(x, 4, None).is_ok());
    assert!(assignments.remove_value_from_domain(x, 2, None).is_ok());
    assert!(assignments.tighten_lower_bound(x, 1, None).is_ok());
    assert_eq!(
        vec![
            Predicate::LowerBound { domain_id: x, lower_bound: 1 },
            Predicate::UpperBound { domain_id: x, upper_bound: 6 },
            Predicate::NotEqual { domain_id: x, not_equal_constant: 2 },
            Predicate::NotEqual { domain_id: x, not_equal_constant: 4 },
        ],
        assignments.get_domain_description(x)
    );
    assert_eq!(assignments.get_domain_description(x), x.describe_domain(&assignments));
    assert_eq!(assignments.get_domain_description(x), x.scaled(-3).describe_domain(&assignments));
    let y = assignments.grow(5, 5);
    assert_eq!(
        vec![
            Predicate::LowerBound { domain_id: y, lower_bound: 5 },
            Predicate::UpperBound { domain_id: y, upper_bound: 5 },
        ],
        y.describe_domain(&assignments)
    );
}
