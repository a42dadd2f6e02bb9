use pumpkin_solver::branching::selection_context::SelectionContext;
use pumpkin_solver::engine::sat::restart_strategy::RestartStrategy;
use pumpkin_solver::basic_types::arithmetic::div_ceil_i64;
use pumpkin_solver::basic_types::arithmetic::div_floor_i64;
use pumpkin_solver::basic_types::arithmetic::gcd_i32;
use pumpkin_solver::basic_types::arithmetic::gcd_u64;
use pumpkin_solver::basic_types::arithmetic::lcm_i32;
use pumpkin_solver::basic_types::arithmetic::magnitude;
use pumpkin_solver::basic_types::domain_events::DomainEvents;
use pumpkin_solver::basic_types::domain_events::IntDomainEvent;
use pumpkin_solver::basic_types::domain_events::OpaqueDomainEvent;
use pumpkin_solver::basic_types::domain_id::DomainId;
use pumpkin_solver::basic_types::linear_less_or_equal::LinearLessOrEqual;
use pumpkin_solver::basic_types::predicate::Predicate;
use pumpkin_solver::basic_types::stored_conflict_info::StoredConflictInfo;
use pumpkin_solver::basic_types::variables::AffineView;
use pumpkin_solver::engine::assignments_integer::AssignmentsInteger;
use pumpkin_solver::engine::assignments_view::ReasonRef;
use pumpkin_solver::engine::cp_engine_data_structures::CPEngineDataStructures;
use pumpkin_solver::engine::flattened_variable::FlattenedVariable;
use pumpkin_solver::engine::propagation::fixpoint::propagate_to_fixpoint;
use pumpkin_solver::engine::propagation::linear_constraint::prop_to_linear_constraint;
use pumpkin_solver::engine::propagation::linear_constraint::LinearConstraint;
use pumpkin_solver::engine::propagation::propagator::Propagator;
use pumpkin_solver::engine::propagation::store::PropagatorStore;
use pumpkin_solver::engine::propagator_queue::PropagatorId;
use pumpkin_solver::engine::propagator_queue::PropagatorQueue;
use pumpkin_solver::engine::reason_store::Reason;
use pumpkin_solver::engine::reason_store::ReasonStore;
use pumpkin_solver::engine::watch_list_cp::LocalId;
use pumpkin_solver::engine::watch_list_cp::PropagatorVarId;
use pumpkin_solver::propagators::linear_inequality_literal_propagator::LinearInequalityLiteralPropagator;
use pumpkin_solver::propagators::linear_less_or_equal::LinearLessOrEqualPropagator;

#[test]
fn division_rounds_as_its_name_says() {
    assert_eq!(3, div_floor_i64(7, 2));
    assert_eq!(4, div_ceil_i64(7, 2));
    assert_eq!(-4, div_floor_i64(-7, 2));
    assert_eq!(-3, div_ceil_i64(-7, 2));
    assert_eq!(-4, div_floor_i64(7, -2));
    assert_eq!(-3, div_ceil_i64(7, -2));
    assert_eq!(3, div_floor_i64(-7, -2));
    assert_eq!(4, div_ceil_i64(-7, -2));
    assert_eq!(-3, div_floor_i64(-6, 2));
    assert_eq!(-3, div_ceil_i64(-6, 2));
    assert_eq!(0, div_floor_i64(0, 5));
}

#[test]
fn greatest_common_divisors_and_least_common_multiples() {
    assert_eq!(6, gcd_u64(12, 18));
    assert_eq!(5, gcd_u64(0, 5));
    assert_eq!(5, gcd_u64(5, 0));
    assert_eq!(0, gcd_u64(0, 0));
    assert_eq!(1, gcd_u64(17, 4));
    assert_eq!(4, gcd_i32(-12, 8));
    assert_eq!(1 << 30, gcd_i32(i32::MIN, 1 << 30));
    assert_eq!(2147483648, magnitude(i32::MIN));
    assert_eq!(36, lcm_i32(12, -18));
    assert_eq!(0, lcm_i32(0, 7));
    assert_eq!(10, lcm_i32(10, 10));
}

#[test]
fn the_queue_serves_low_priorities_first_and_each_in_order_of_arrival() {
    let mut queue = PropagatorQueue::new(5);
    assert!(queue.is_empty());
    assert_eq!(5, queue.num_priority_levels());
    queue.enqueue_propagator(PropagatorId(3), 2);
    queue.enqueue_propagator(PropagatorId(1), 4);
    queue.enqueue_propagator(PropagatorId(7), 2);
    queue.enqueue_propagator(PropagatorId(5), 0);
    queue.enqueue_propagator(PropagatorId(3), 0);
    assert!(!queue.is_empty());
    assert!(queue.is_propagator_enqueued(PropagatorId(7)));
    assert!(!queue.is_propagator_enqueued(PropagatorId(2)));
    assert_eq!(PropagatorId(5), queue.pop());
    assert_eq!(PropagatorId(3), queue.pop());
    assert!(!queue.is_propagator_enqueued(PropagatorId(3)));
    queue.enqueue_propagator(PropagatorId(3), 2);
    assert_eq!(PropagatorId(7), queue.pop());
    assert_eq!(PropagatorId(3), queue.pop());
    assert_eq!(PropagatorId(1), queue.pop());
    assert!(queue.is_empty());
    queue.enqueue_propagator(PropagatorId(9), 1);
    queue.clear();
    assert!(queue.is_empty());
    assert!(!queue.is_propagator_enqueued(PropagatorId(9)));
    assert_eq!(5, queue.num_priority_levels());
}

fn linear(terms: Vec<(DomainId, i32)>, rhs: i32) -> Propagator {
    Propagator::LinearLessOrEqual(LinearLessOrEqualPropagator::new(LinearLessOrEqual::new(terms, rhs)))
}

#[test]
fn a_change_wakes_those_who_watch_for_it() {
    let mut engine = CPEngineDataStructures::new();
    let x = engine.new_domain(0, 5);
    let y = engine.new_domain(0, 5);
    let mut store = PropagatorStore::new();
    let first = store.add_propagator(linear(vec![(x, 1)], 10)).unwrap();
    let second = store.add_propagator(linear(vec![(y, 1)], 10)).unwrap();
    let third = store.add_propagator(linear(vec![(x, 1), (y, 1)], 10)).unwrap();
    let watcher = |propagator| PropagatorVarId { propagator, variable: LocalId(0) };
    engine.watch_list_cp.watch_all(x, DomainEvents::only(IntDomainEvent::LowerBound), watcher(first));
    engine.watch_list_cp.watch_all(x, DomainEvents::only(IntDomainEvent::UpperBound), watcher(second));
    engine.watch_list_cp.watch_all(x, DomainEvents::only(IntDomainEvent::Assign), watcher(third));
    engine.watch_list_cp.watch_all(x, DomainEvents::only(IntDomainEvent::Hole), watcher(second));
    engine.watch_list_cp.watch_all(y, DomainEvents::any_int(), watcher(first));

    assert!(engine.tighten_lower_bound(x, 0, None, &store).is_ok());
    assert!(engine.propagator_queue.is_empty());
    assert!(engine.tighten_lower_bound(x, 9, None, &store).is_err());
    assert!(engine.propagator_queue.is_empty());

    assert!(engine.tighten_lower_bound(x, 2, None, &store).is_ok());
    assert_eq!(first, engine.propagator_queue.pop());
    assert!(engine.propagator_queue.is_empty());

    assert!(engine.remove_value_from_domain(x, 3, None, &store).is_ok());
    assert_eq!(second, engine.propagator_queue.pop());
    assert!(engine.propagator_queue.is_empty());

    assert!(engine.remove_value_from_domain(x, 5, None, &store).is_ok());
    assert_eq!(4, engine.assignments_integer.get_upper_bound(x));
    assert_eq!(second, engine.propagator_queue.pop());
    assert!(engine.propagator_queue.is_empty());

    assert!(engine.make_assignment(x, 4, None, &store).is_ok());
    assert_eq!(first, engine.propagator_queue.pop());
    assert_eq!(third, engine.propagator_queue.pop());
    assert!(engine.propagator_queue.is_empty());

    assert!(engine.apply_predicate(&Predicate::UpperBound { domain_id: y, upper_bound: 7 }, None, &store).is_ok());
    assert!(engine.propagator_queue.is_empty());
    assert!(engine.apply_predicate(&Predicate::Equal { domain_id: y, equality_constant: 5 }, None, &store).is_ok());
    assert_eq!(first, engine.propagator_queue.pop());
    assert!(engine.apply_predicate(&Predicate::False, None, &store).is_err());
    assert!(engine.does_predicate_hold(&Predicate::Equal { domain_id: y, equality_constant: 5 }));

    engine.assignments_integer.increase_decision_level();
    engine.propagator_queue.enqueue_propagator(third, 2);
    engine.backtrack(0);
    assert!(engine.propagator_queue.is_empty());
    assert_eq!(5, engine.assignments_integer.get_lower_bound(y));
}

#[test]
fn a_linear_inequality_narrows_to_its_fixpoint_or_fails_unchanged() {
    let mut engine = CPEngineDataStructures::new();
    let x = engine.new_domain(0, 10);
    let y = engine.new_domain(0, 10);
    let z = engine.new_domain(2, 10);
    let mut reasons = ReasonStore::new();
    let store = PropagatorStore::new();
    // 2x - 3y + z <= 7
    let propagator = LinearLessOrEqualPropagator::new(LinearLessOrEqual::new(vec![(x, 2), (y, -3), (z, 1)], 7));
    assert_eq!(2, propagator.priority());
    assert!(engine.tighten_upper_bound(y, 1, None, &store).is_ok());
    // least value: 0 - 3 + 2 = -1, slack 8: x <= 4, y >= 1 - 2 = -1, z <= 10
    assert_eq!(Ok(()), propagator.propagate(PropagatorId(0), &mut engine, &store, &mut reasons));
    assert_eq!(4, engine.assignments_integer.get_upper_bound(x));
    assert_eq!(0, engine.assignments_integer.get_lower_bound(y));
    assert_eq!(10, engine.assignments_integer.get_upper_bound(z));
    let entries = engine.assignments_integer.num_trail_entries();
    assert_eq!(Ok(()), propagator.propagate(PropagatorId(0), &mut engine, &store, &mut reasons));
    assert_eq!(entries, engine.assignments_integer.num_trail_entries());
    let entry = engine.assignments_integer.get_trail_entry(entries - 1);
    assert_eq!(Some(PropagatorId(0)), reasons.get_propagator(entry.reason.unwrap()));

    assert!(engine.tighten_lower_bound(x, 4, None, &store).is_ok());
    assert!(engine.tighten_upper_bound(y, 0, None, &store).is_ok());
    // least value now 8 + 0 + 2 = 10 > 7
    let before = engine.assignments_integer.num_trail_entries();
    assert_eq!(
        Err(StoredConflictInfo::Propagator { propagator_id: PropagatorId(0) }),
        propagator.propagate(PropagatorId(0), &mut engine, &store, &mut reasons)
    );
    assert_eq!(before, engine.assignments_integer.num_trail_entries());
}

#[test]
fn propagation_runs_until_nothing_waits() {
    let mut engine = CPEngineDataStructures::new();
    let x = engine.new_domain(0, 10);
    let y = engine.new_domain(0, 10);
    let mut reasons = ReasonStore::new();
    let mut store = PropagatorStore::new();
    // x <= y - 1 and y <= x - 1 chase each other's bounds until a domain runs out
    let first = store.add_propagator(linear(vec![(x, 1), (y, -1)], -1)).unwrap();
    let second = store.add_propagator(linear(vec![(y, 1), (x, -1)], -1)).unwrap();
    for (id, low, high) in [(first, x, y), (second, y, x)] {
        let watcher = PropagatorVarId { propagator: id, variable: LocalId(0) };
        engine.watch_list_cp.watch_all(low, DomainEvents::only(IntDomainEvent::LowerBound), watcher);
        engine.watch_list_cp.watch_all(high, DomainEvents::only(IntDomainEvent::UpperBound), watcher);
        engine.propagator_queue.enqueue_propagator(id, 2);
    }
    let status = propagate_to_fixpoint(&mut engine, &store, &mut reasons);
    assert!(matches!(status, Err(StoredConflictInfo::Propagator { .. })));

    let mut engine = CPEngineDataStructures::new();
    let x = engine.new_domain(0, 10);
    let y = engine.new_domain(0, 10);
    let mut store = PropagatorStore::new();
    // x + 2 <= y and y <= 5
    let first = store.add_propagator(linear(vec![(x, 1), (y, -1)], -2)).unwrap();
    let second = store.add_propagator(linear(vec![(y, 1)], 5)).unwrap();
    let watcher = PropagatorVarId { propagator: first, variable: LocalId(0) };
    engine.watch_list_cp.watch_all(y, DomainEvents::only(IntDomainEvent::UpperBound), watcher);
    engine.propagator_queue.enqueue_propagator(second, 2);
    assert_eq!(Ok(()), propagate_to_fixpoint(&mut engine, &store, &mut reasons));
    assert!(engine.propagator_queue.is_empty());
    assert_eq!(5, engine.assignments_integer.get_upper_bound(y));
    assert_eq!(3, engine.assignments_integer.get_upper_bound(x));
    assert_eq!(2, engine.assignments_integer.get_lower_bound(y));
}

#[test]
fn an_inequality_is_judged_at_every_point_of_the_trail() {
    let mut store = AssignmentsInteger::new();
    let x = store.grow(0, 10);
    let y = store.grow(0, 10);
    let inequality = LinearLessOrEqual::new(vec![(x, 2), (y, -1)], 3);
    assert!(store.tighten_lower_bound(x, 4, None).is_ok());
    assert!(store.tighten_upper_bound(y, 4, None).is_ok());
    // at the start: least value 0 - 10 = -10; after one entry: 8 - 10 = -2; after two: 8 - 4 = 4
    assert_eq!(-10, inequality.lhs.lb_initial(&store));
    assert_eq!(20, inequality.lhs.ub_initial(&store));
    assert_eq!(-2, inequality.lb_lhs(&store, 0));
    assert_eq!(4, inequality.lb_lhs(&store, 1));
    assert_eq!(20, inequality.lhs.ub(&store, 1));
    assert_eq!(13, inequality.slack_after(&store, 0));
    assert_eq!(5, inequality.slack(&store, 0));
    assert_eq!(-1, inequality.slack(&store, 1));
    assert!(!inequality.is_conflicting(&store, 0));
    assert!(inequality.is_conflicting(&store, 1));
    assert!(!inequality.is_conflicting_after(&store, 0));
    // at the start x may be 10: 20 - 0 > 13; so the inequality removes values
    assert!(inequality.is_propagating_after(&store, 0));
    assert!(inequality.is_propagating(&store, 0));
    assert!(!inequality.overflows(&store, 1));
    assert!(!inequality.lhs.lb_overflows(&store, 1));
    assert_eq!(None, inequality.evaluate_at_trail_position(&store, 0));
    assert_eq!(Some(false), inequality.evaluate_at_trail_position(&store, 1));
    assert_eq!(Some(true), LinearLessOrEqual::new(vec![(x, 1)], 10).evaluate_at_trail_position(&store, 1));
    let idle = LinearLessOrEqual::new(vec![(x, 1), (y, 1)], 20);
    assert!(!idle.is_propagating_after(&store, 0));
    assert!(!idle.is_propagating(&store, 1));

    let large = LinearLessOrEqual::new(vec![(x, i32::MAX), (y, 1)], 3);
    assert!(large.overflows(&store, 0));
    assert!(large.lhs.lb_overflows(&store, 0));
    assert!(!large.overflows_after(&store, 0));
    let far = LinearLessOrEqual::new(vec![(x, 1), (y, -1)], i32::MAX);
    assert!(far.overflows_after(&store, 0));
    assert!(!far.lhs.lb_overflows_after(&store, 0));

    assert_eq!(2, inequality.lhs.len());
    assert_eq!(vec![&(x, 2), &(y, -1)], inequality.lhs.iter().collect::<Vec<_>>());
    assert_eq!(vec![AffineView::new(x, 2, 0), AffineView::new(y, -1, 0)], inequality.to_vars());
    let copy = inequality.duplicate();
    assert_eq!(inequality, copy);
}

#[test]
fn a_linear_constraint_is_judged_now_unless_a_position_is_named() {
    let mut store = AssignmentsInteger::new();
    let x = store.grow(0, 10);
    let y = store.grow(0, 10);
    assert!(store.tighten_lower_bound(x, 4, None).is_ok());
    assert!(store.tighten_upper_bound(y, 4, None).is_ok());
    let constraint = LinearConstraint { lhs: vec![(x, 2), (y, -1)], rhs: 3 };
    assert!(constraint.contains_variable(y));
    assert!(!constraint.contains_variable(DomainId::new(9)));
    assert_eq!(Some(-1), constraint.find_variable_scale(y));
    assert_eq!(None, constraint.find_variable_scale(DomainId::new(9)));
    assert_eq!(vec![AffineView::new(x, 2, 0), AffineView::new(y, -1, 0)], constraint.to_vars());
    assert_eq!(4, constraint.lb_lhs(&store, None));
    assert_eq!(-2, constraint.lb_lhs(&store, Some(0)));
    assert_eq!(-1, constraint.slack(&store, None));
    assert_eq!(5, constraint.slack(&store, Some(0)));
    assert!(constraint.is_conflicting(&store, None));
    assert!(!constraint.is_conflicting(&store, Some(0)));
    assert!(constraint.is_propagating(&store, Some(0)));
    assert_eq!(constraint.to_inequality(), LinearLessOrEqual::new(vec![(y, -1), (x, 2)], 3));

    let mut propagators = PropagatorStore::new();
    let id = propagators.add_propagator(linear(vec![(x, 2), (y, -1)], 3)).unwrap();
    let converted = prop_to_linear_constraint(&propagators, id).unwrap();
    assert_eq!(vec![(x, 2), (y, -1)], converted.lhs);
    assert_eq!(3, converted.rhs);
    assert!(prop_to_linear_constraint(&propagators, PropagatorId(5)).is_none());
    let flattened = FlattenedVariable::new(x, 2, 0);
    assert_eq!((x, 2, 0), (flattened.id, flattened.scale, flattened.offset));
    let Propagator::LinearLessOrEqual(propagator) = propagators.get(id) else {
        panic!("expected a linear propagator")
    };
    let (variables, bound) = propagator.get_linear_constraint();
    assert_eq!(3, bound);
    assert_eq!(vec![(x, 2, 0), (y, -1, 0)], variables.iter().map(|v| (v.id, v.scale, v.offset)).collect::<Vec<_>>());
    assert_eq!(1, propagators.num_propagators());
}

#[test]
fn reasons_are_kept_level_by_level() {
    let mut reasons = ReasonStore::new();
    let first = reasons.push(Reason::Propagator(PropagatorId(4)));
    reasons.increase_decision_level();
    let second = reasons.push(Reason::Conjunction(vec![Predicate::True]));
    reasons.increase_decision_level();
    let third = reasons.push(Reason::Propagator(PropagatorId(6)));
    assert_eq!((ReasonRef(0), ReasonRef(1), ReasonRef(2)), (first, second, third));
    assert_eq!(Some(PropagatorId(4)), reasons.get_propagator(first));
    assert_eq!(None, reasons.get_propagator(second));
    assert_eq!(Some(PropagatorId(6)), reasons.get_propagator(third));
    assert_eq!(None, reasons.get_propagator(ReasonRef(3)));
    reasons.synchronise(5);
    assert_eq!(Some(PropagatorId(6)), reasons.get_propagator(third));
    reasons.synchronise(1);
    assert_eq!(None, reasons.get_propagator(third));
    assert_eq!(Some(PropagatorId(4)), reasons.get_propagator(first));
    reasons.synchronise(0);
    assert_eq!(None, reasons.get_propagator(second));
    assert_eq!(Some(PropagatorId(4)), reasons.get_propagator(first));
}

#[test]
fn events_come_in_sets() {
    let bounds = DomainEvents::bounds();
    assert!(bounds.contains(IntDomainEvent::LowerBound) && bounds.contains(IntDomainEvent::UpperBound));
    assert!(!bounds.contains(IntDomainEvent::Assign) && !bounds.contains(IntDomainEvent::Hole));
    assert!(!DomainEvents::empty().contains(IntDomainEvent::Hole));
    assert!(DomainEvents::any_int().contains(IntDomainEvent::Assign));
    let lower = DomainEvents::only(IntDomainEvent::LowerBound);
    assert_eq!(DomainEvents::only(IntDomainEvent::UpperBound), lower.swapped_bounds());
    let x = DomainId::new(0);
    let event = OpaqueDomainEvent(IntDomainEvent::LowerBound);
    assert_eq!(IntDomainEvent::LowerBound, x.unpack_event(event));
    assert_eq!(IntDomainEvent::LowerBound, x.scaled(3).unpack_event(event));
    assert_eq!(IntDomainEvent::UpperBound, x.scaled(-3).unpack_event(event));
    assert_eq!(IntDomainEvent::Hole, x.scaled(-3).unpack_event(OpaqueDomainEvent(IntDomainEvent::Hole)));
}

#[test]
fn a_literal_follows_its_inequality_and_the_other_way_round() {
    let mut engine = CPEngineDataStructures::new();
    let x = engine.new_domain(0, 10);
    let p = engine.new_domain(0, 1);
    let store = PropagatorStore::new();
    let mut reasons = ReasonStore::new();
    // p <-> 3x <= 10
    let propagator = LinearInequalityLiteralPropagator::new(LinearLessOrEqual::new(vec![(x, 3)], 10), p);
    assert_eq!(0, propagator.priority());
    assert_eq!(Ok(()), propagator.propagate(PropagatorId(0), &mut engine, &store, &mut reasons));
    assert_eq!(0, engine.assignments_integer.num_trail_entries());

    assert!(engine.tighten_lower_bound(x, 4, None, &store).is_ok());
    assert_eq!(Ok(()), propagator.propagate(PropagatorId(0), &mut engine, &store, &mut reasons));
    assert_eq!(0, engine.assignments_integer.get_upper_bound(p));
    assert_eq!(4, engine.assignments_integer.get_lower_bound(x));

    let mut engine = CPEngineDataStructures::new();
    let x = engine.new_domain(0, 10);
    let p = engine.new_domain(0, 1);
    assert!(engine.tighten_lower_bound(p, 1, None, &store).is_ok());
    assert_eq!(Ok(()), propagator.propagate(PropagatorId(0), &mut engine, &store, &mut reasons));
    assert_eq!(3, engine.assignments_integer.get_upper_bound(x));
    assert_eq!(Ok(()), propagator.propagate(PropagatorId(0), &mut engine, &store, &mut reasons));
    assert_eq!(1, engine.assignments_integer.get_lower_bound(p));

    let mut engine = CPEngineDataStructures::new();
    let x = engine.new_domain(0, 10);
    let p = engine.new_domain(0, 1);
    assert!(engine.tighten_upper_bound(p, 0, None, &store).is_ok());
    assert_eq!(Ok(()), propagator.propagate(PropagatorId(0), &mut engine, &store, &mut reasons));
    assert_eq!(4, engine.assignments_integer.get_lower_bound(x));

    // p <-> -2x <= -5, that is x >= 3
    let negative = LinearInequalityLiteralPropagator::new(LinearLessOrEqual::new(vec![(x, -2)], -5), p);
    let mut engine = CPEngineDataStructures::new();
    let x = engine.new_domain(0, 10);
    let p = engine.new_domain(0, 1);
    assert!(engine.tighten_upper_bound(p, 0, None, &store).is_ok());
    assert_eq!(Ok(()), negative.propagate(PropagatorId(0), &mut engine, &store, &mut reasons));
    assert_eq!(2, engine.assignments_integer.get_upper_bound(x));
    let mut engine = CPEngineDataStructures::new();
    let x = engine.new_domain(0, 10);
    let p = engine.new_domain(0, 1);
    assert!(engine.tighten_lower_bound(p, 1, None, &store).is_ok());
    assert_eq!(Ok(()), negative.propagate(PropagatorId(0), &mut engine, &store, &mut reasons));
    assert_eq!(3, engine.assignments_integer.get_lower_bound(x));

    // a literal that is fixed against what the domains decide is a conflict
    let mut engine = CPEngineDataStructures::new();
    let x = engine.new_domain(0, 3);
    let p = engine.new_domain(0, 0);
    assert_eq!(
        Err(StoredConflictInfo::Propagator { propagator_id: PropagatorId(7) }),
        propagator.propagate(PropagatorId(7), &mut engine, &store, &mut reasons)
    );
    let _ = x;
    let _ = p;
}

#[test]
fn the_switching_constant_is_just_large_enough() {
    let mut store = AssignmentsInteger::new();
    let x = store.grow(0, 10);
    let y = store.grow(-5, 5);
    let p = store.grow(0, 1);
    // 2x - y <= 7: least value -5, greatest value 25; M = max(25 - 7, 7 + 1 + 5, 0) = 18
    let propagator = LinearInequalityLiteralPropagator::new(LinearLessOrEqual::new(vec![(x, 2), (y, -1)], 7), p);
    let when_true = propagator.get_propagation_reason_constraint(&store, true).unwrap();
    assert_eq!(vec![(x, 2), (y, -1), (p, 18)], when_true.lhs.0);
    assert_eq!(25, when_true.rhs);
    let when_false = propagator.get_propagation_reason_constraint(&store, false).unwrap();
    assert_eq!(vec![(x, -2), (y, 1), (p, -18)], when_false.lhs.0);
    assert_eq!(-8, when_false.rhs);

    // x <= 100 holds of all values, and x >= 101 of none: M = max(10 - 100, 101, 0) = 101
    let always = LinearInequalityLiteralPropagator::new(LinearLessOrEqual::new(vec![(x, 1)], 100), p);
    let constraint = always.get_propagation_reason_constraint(&store, true).unwrap();
    assert_eq!(vec![(x, 1), (p, 101)], constraint.lhs.0);
    assert_eq!(201, constraint.rhs);

    let huge = LinearInequalityLiteralPropagator::new(LinearLessOrEqual::new(vec![(x, i32::MAX)], 0), p);
    assert!(huge.get_propagation_reason_constraint(&store, true).is_none());
    let least = LinearInequalityLiteralPropagator::new(LinearLessOrEqual::new(vec![(x, i32::MIN)], 0), p);
    assert!(least.get_propagation_reason_constraint(&store, false).is_none());
}

#[test]
fn a_restart_waits_for_its_interval_and_for_the_first_minimum() {
    let mut strategy = RestartStrategy::new(2, 3);
    assert_eq!(0, strategy.number_of_restarts());
    assert!(!strategy.should_restart(true));
    assert!(!strategy.notify_conflict(true, 7));
    assert!(!strategy.notify_conflict(false, 7));
    // the interval of 2 is over, the minimum of 3 is not
    assert!(!strategy.should_restart(true));
    assert!(!strategy.notify_conflict(false, 7));
    assert!(!strategy.should_restart(false));
    assert!(strategy.should_restart(true));
    strategy.notify_restart(4);
    assert_eq!(1, strategy.number_of_restarts());
    assert_eq!(
        RestartStrategy {
            number_of_conflicts_encountered_since_restart: 0,
            number_of_conflicts_until_restart: 4,
            minimum_number_of_conflicts_before_first_restart: 3,
            number_of_restarts: 1,
            number_of_blocked_restarts: 0,
        },
        strategy
    );
    for _ in 0..3 {
        assert!(!strategy.notify_conflict(true, 9));
    }
    // the fourth conflict makes a restart due; a long trail blocks it
    assert!(strategy.notify_conflict(true, 9));
    assert_eq!(
        RestartStrategy {
            number_of_conflicts_encountered_since_restart: 0,
            number_of_conflicts_until_restart: 9,
            minimum_number_of_conflicts_before_first_restart: 3,
            number_of_restarts: 1,
            number_of_blocked_restarts: 1,
        },
        strategy
    );
    assert!(!strategy.should_restart(true));
}

#[test]
fn a_second_run_of_the_tied_propagator_changes_nothing() {
    let store = PropagatorStore::new();
    let mut reasons = ReasonStore::new();
    // p <-> 3x <= 10, with x at most 3 to begin with: p follows, nothing else
    let mut engine = CPEngineDataStructures::new();
    let x = engine.new_domain(0, 3);
    let p = engine.new_domain(0, 1);
    let propagator = LinearInequalityLiteralPropagator::new(LinearLessOrEqual::new(vec![(x, 3)], 10), p);
    assert_eq!(Ok(()), propagator.propagate(PropagatorId(0), &mut engine, &store, &mut reasons));
    assert_eq!(1, engine.assignments_integer.get_lower_bound(p));
    let entries = engine.assignments_integer.num_trail_entries();
    assert_eq!(1, entries);
    assert_eq!(Ok(()), propagator.propagate(PropagatorId(0), &mut engine, &store, &mut reasons));
    assert_eq!(entries, engine.assignments_integer.num_trail_entries());

    // the literal is false and x follows: x >= 4, then p stays and x stays
    let mut engine = CPEngineDataStructures::new();
    let x = engine.new_domain(0, 10);
    let p = engine.new_domain(0, 1);
    assert!(engine.tighten_upper_bound(p, 0, None, &store).is_ok());
    assert_eq!(Ok(()), propagator.propagate(PropagatorId(0), &mut engine, &store, &mut reasons));
    assert_eq!((4, 10), (engine.assignments_integer.get_lower_bound(x), engine.assignments_integer.get_upper_bound(x)));
    let entries = engine.assignments_integer.num_trail_entries();
    assert_eq!(Ok(()), propagator.propagate(PropagatorId(0), &mut engine, &store, &mut reasons));
    assert_eq!(entries, engine.assignments_integer.num_trail_entries());
    assert_eq!((0, 0), (engine.assignments_integer.get_lower_bound(p), engine.assignments_integer.get_upper_bound(p)));
}

#[test]
fn on_an_empty_trail_every_position_reads_the_root() {
    let mut assignments = SelectionContext::create_for_testing(2, Some(vec![(0, 3), (0, 3)]));
    let x = DomainId::new(0);
    let y = DomainId::new(1);
    let c = LinearLessOrEqual::new(vec![(x, 3), (y, 4)], -2);
    assert_eq!(0, assignments.num_trail_entries());
    assert_eq!(-2, c.slack(&assignments, 0));
    assert!(c.is_conflicting(&assignments, 0));
    assert!(!c.overflows(&assignments, 0));
    assert_eq!(0, assignments.get_lower_bound_at_trail_position(x, 0));
    assert_eq!(3, assignments.get_upper_bound_at_trail_position(y, 7));

    // behind the end of the trail a position reads the current domains
    assert!(assignments.tighten_lower_bound(x, 2, None).is_ok());
    assert_eq!(2, assignments.get_lower_bound_at_trail_position(x, 0));
    assert_eq!(2, assignments.get_lower_bound_at_trail_position(x, 5));
    assert_eq!(-8, c.slack(&assignments, 9));
    let d = LinearLessOrEqual::new(vec![(x, 1), (y, 1)], 4);
    assert!(!d.is_conflicting(&assignments, 3));
    assert!(d.is_propagating(&assignments, 3));
}

#[test]
fn defaults_and_conversions_are_the_empty_values() {
    use_defaults();
}

fn use_defaults() {
    let engine = CPEngineDataStructures::default();
    assert_eq!(0, engine.assignments_integer.num_domains());
    assert!(engine.propagator_queue.is_empty());
    let inequality = LinearLessOrEqual::default();
    assert_eq!((0, 0), (inequality.lhs.len(), inequality.rhs));
    let terms = vec![(DomainId::new(0), 2), (DomainId::new(1), -1)];
    let lhs: pumpkin_solver::basic_types::linear_less_or_equal::LinearLessOrEqualLhs = terms.clone().into();
    assert_eq!(terms, lhs.0);
    let mut tied = LinearInequalityLiteralPropagator::new(LinearLessOrEqual::new(terms, 4), DomainId::new(2));
    assert_eq!("PredicateLiteralPropagator", tied.name());
    assert_eq!(
        pumpkin_solver::propagators::linear_inequality_literal_propagator::EnqueueDecision::Enqueue,
        tied.notify_backtrack(LocalId(0), OpaqueDomainEvent(IntDomainEvent::Assign))
    );
}

#[test]
fn the_terms_can_be_rewritten_in_place() {
    let mut inequality = LinearLessOrEqual::new(vec![(DomainId::new(0), 2), (DomainId::new(1), -3)], 4);
    for term in inequality.lhs.iter_mut() {
        term.1 = -term.1;
    }
    assert_eq!(vec![(DomainId::new(0), -2), (DomainId::new(1), 3)], inequality.lhs.0);
    let seen: Vec<i32> = inequality.lhs.iter().map(|term| term.1).collect();
    assert_eq!(vec![-2, 3], seen);
}
