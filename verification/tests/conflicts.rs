use pumpkin_solver::basic_types::domain_id::DomainId;
use pumpkin_solver::basic_types::linear_less_or_equal::LinearLessOrEqual;
use pumpkin_solver::basic_types::predicate::Predicate;
use pumpkin_solver::basic_types::stored_conflict_info::StoredConflictInfo;
use pumpkin_solver::branching::max_regret::MaxRegret;
use pumpkin_solver::engine::conflict_analysis::conflict_resolver::ConflictResolver;
use pumpkin_solver::engine::conflict_analysis::intsat_analysis::analyse_conflict;
use pumpkin_solver::engine::conflict_analysis::intsat_analysis::initial_constraint;
use pumpkin_solver::engine::conflict_analysis::intsat_analysis::FallbackReason;
use pumpkin_solver::engine::conflict_analysis::intsat_analysis::IntSatOutcome;
use pumpkin_solver::engine::conflict_analysis::intsat_conflict_resolver::IntSatConflictResolver;
use pumpkin_solver::engine::conflict_analysis::learned_nogood::ConflictResolveResult;
use pumpkin_solver::engine::conflict_analysis::learned_nogood::LearnedConstraint;
use pumpkin_solver::engine::conflict_analysis::learned_nogood::LearnedNogood;
use pumpkin_solver::engine::conflict_analysis::no_learning_resolver::NoLearningResolver;
use pumpkin_solver::engine::conflict_analysis::resolution_resolver::ResolutionResolver;
use pumpkin_solver::engine::propagation::fixpoint::propagate_to_fixpoint;
use pumpkin_solver::engine::propagation::propagator::Propagator;
use pumpkin_solver::engine::propagator_queue::PropagatorId;
use pumpkin_solver::solver::SatisfactionResult;
use pumpkin_solver::solver::Solver;

/// The three-variable system, with the decision `x = -2` taken and
/// propagated into the conflict on `y + z <= 1`.
fn conflict_after_one_decision<R: ConflictResolver>(resolver: R) -> (Solver<R>, [DomainId; 3]) {
    let mut solver = Solver::with_resolver(resolver);
    let x = solver.new_bounded_integer(-10, 1);
    let y = solver.new_bounded_integer(-10, 1);
    let z = solver.new_bounded_integer(-10, 3);
    assert!(solver.add_constraint(LinearLessOrEqual::new(vec![(x, -1), (y, -1), (z, -1)], -2)).is_ok());
    assert!(solver.add_constraint(LinearLessOrEqual::new(vec![(x, 1), (y, 1)], 1)).is_ok());
    assert!(solver.add_constraint(LinearLessOrEqual::new(vec![(x, 1), (z, 1)], 1)).is_ok());
    assert!(solver.add_constraint(LinearLessOrEqual::new(vec![(y, 1), (z, 1)], 1)).is_ok());
    assert!(solver.decide(Predicate::UpperBound { domain_id: x, upper_bound: -2 }).is_ok());
    let status = propagate_to_fixpoint(
        &mut solver.state.engine,
        &solver.state.propagators,
        &mut solver.state.reason_store,
    );
    let Err(info) = status else { panic!("expected a conflict") };
    assert_eq!(StoredConflictInfo::Propagator { propagator_id: PropagatorId(3) }, info);
    solver.state.record_conflict(info);
    (solver, [x, y, z])
}

#[test]
fn the_analysis_learns_the_bound_that_the_decision_broke() {
    let (mut solver, [x, _y, _z]) = conflict_after_one_decision(IntSatConflictResolver::new());
    assert_eq!(1, solver.state.counters.num_conflicts);
    let start = initial_constraint(&solver.state).unwrap();
    assert_eq!(1, start.rhs);
    let IntSatOutcome::Learned(learned) = analyse_conflict(&solver.state) else {
        panic!("expected a learned inequality")
    };
    // (y + z <= 1) + (-x - y - z <= -2) = (-x <= -1)
    assert_eq!(LinearLessOrEqual::new(vec![(x, -1)], -1), learned.constraint);
    assert_eq!(0, learned.backjump_level);

    let mut resolver = IntSatConflictResolver::new();
    let result = resolver.resolve_conflict(&mut solver.state);
    let Some(ConflictResolveResult::Constraint(LearnedConstraint { constraint, backjump_level })) = &result
    else {
        panic!("expected a learned inequality")
    };
    assert_eq!(&LinearLessOrEqual::new(vec![(x, -1)], -1), constraint);
    assert_eq!(0, *backjump_level);
    assert_eq!(1, solver.state.counters.intsat_statistics.intsat_learned_constraints);
    assert_eq!(1, solver.state.counters.intsat_statistics.intsat_learned_constraints_total_length);
    assert_eq!(1, solver.state.counters.intsat_statistics.intsat_constraint_total_max_coefficient);
    assert_eq!(0, solver.state.counters.intsat_statistics.intsat_fallback_used);
    assert_eq!(1, solver.state.learned_constraint_log.num_items());
    assert!(resolver.resolution_resolver.activity(x) + resolver.resolution_resolver.activity(DomainId::new(1)) > 0);

    assert_eq!(Ok(()), resolver.process(&mut solver.state, &result));
    assert_eq!(0, solver.state.engine.assignments_integer.get_decision_level());
    assert_eq!(5, solver.state.propagators.num_propagators());
    let Propagator::LinearLessOrEqual(added) = solver.state.propagators.get(PropagatorId(4)) else {
        panic!("expected a linear propagator")
    };
    assert_eq!(LinearLessOrEqual::new(vec![(x, -1)], -1), added.inequality);
    assert!(solver.state.engine.propagator_queue.is_propagator_enqueued(PropagatorId(4)));
    assert_eq!(2, solver.state.learned_constraint_log.num_items());
    assert_eq!(
        "1|CR|-x0 <= -1|[x0 <= -2]\n1|NP|4|-x0 <= -1\n",
        solver.state.learned_constraint_log.to_text()
    );
}

#[test]
fn the_analysis_gives_up_where_there_is_nothing_linear_to_start_from() {
    let (mut solver, _) = conflict_after_one_decision(IntSatConflictResolver::new());
    solver.state.is_completing_proof = true;
    assert!(matches!(analyse_conflict(&solver.state), IntSatOutcome::Fallback(FallbackReason::CompletingProof)));
    solver.state.is_completing_proof = false;
    solver.state.conflict_info = StoredConflictInfo::Propagator { propagator_id: PropagatorId(77) };
    assert!(matches!(
        analyse_conflict(&solver.state),
        IntSatOutcome::Fallback(FallbackReason::ConflictNotLinear)
    ));
    assert_eq!(Err(FallbackReason::ConflictNotLinear), initial_constraint(&solver.state).map(|_| ()));
    // the trail ends with propagated entries, whose reason explains linearly
    solver.state.conflict_info = StoredConflictInfo::EmptyDomain;
    assert!(initial_constraint(&solver.state).is_ok());
    let mut resolver = IntSatConflictResolver::new();
    solver.state.conflict_info = StoredConflictInfo::Propagator { propagator_id: PropagatorId(77) };
    let result = resolver.resolve_conflict(&mut solver.state);
    assert!(result.is_none());
    assert_eq!(1, solver.state.counters.intsat_statistics.intsat_fallback_used);
    assert_eq!(Ok(()), resolver.process(&mut solver.state, &result));
    assert_eq!(0, solver.state.engine.assignments_integer.get_decision_level());
    assert_eq!(-1, solver.state.engine.assignments_integer.get_lower_bound(DomainId::new(0)));
}

#[test]
fn a_decision_that_ends_the_walk_leaves_the_conflict_to_resolution() {
    let mut solver = Solver::with_resolver(IntSatConflictResolver::new());
    let x = solver.new_bounded_integer(0, 5);
    let y = solver.new_bounded_integer(0, 5);
    assert!(solver.add_constraint(LinearLessOrEqual::new(vec![(x, 1), (y, 1)], 6)).is_ok());
    assert!(solver.decide(Predicate::LowerBound { domain_id: x, lower_bound: 4 }).is_ok());
    assert!(solver.decide(Predicate::LowerBound { domain_id: y, lower_bound: 3 }).is_ok());
    let status = propagate_to_fixpoint(
        &mut solver.state.engine,
        &solver.state.propagators,
        &mut solver.state.reason_store,
    );
    let Err(info) = status else { panic!("expected a conflict") };
    assert_eq!(StoredConflictInfo::Propagator { propagator_id: PropagatorId(0) }, info);
    solver.state.record_conflict(info);
    assert!(matches!(
        analyse_conflict(&solver.state),
        IntSatOutcome::Fallback(FallbackReason::DecisionReached)
    ));
    let mut resolver = IntSatConflictResolver::new();
    let result = resolver.resolve_conflict(&mut solver.state);
    let Some(ConflictResolveResult::Nogood(LearnedNogood { predicates, backjump_level })) = &result else {
        panic!("expected a nogood")
    };
    assert_eq!(1, *backjump_level);
    assert_eq!(2, predicates.len());
    assert!(predicates.contains(&Predicate::LowerBound { domain_id: x, lower_bound: 4 }));
    assert!(predicates.contains(&Predicate::LowerBound { domain_id: y, lower_bound: 3 }));
    assert_eq!(1, solver.state.counters.intsat_statistics.intsat_fallback_used);
    assert_eq!(Ok(()), resolver.process(&mut solver.state, &result));
    assert_eq!(1, solver.state.engine.assignments_integer.get_decision_level());
    assert_eq!(2, solver.state.engine.assignments_integer.get_upper_bound(y));
    assert_eq!(4, solver.state.engine.assignments_integer.get_lower_bound(x));
}

#[test]
fn the_signal_of_a_contradiction_ends_the_search() {
    let (mut solver, _) = conflict_after_one_decision(IntSatConflictResolver::new());
    let mut resolver = IntSatConflictResolver::new();
    let signal = Some(ConflictResolveResult::Nogood(LearnedNogood {
        predicates: vec![Predicate::trivially_false()],
        backjump_level: 0,
    }));
    assert_eq!(Err(()), resolver.process(&mut solver.state, &signal));
    assert_eq!(1, solver.state.engine.assignments_integer.get_decision_level());
}

#[test]
fn without_learning_the_last_decision_is_turned_round() {
    let (mut solver, [x, _, _]) = conflict_after_one_decision(NoLearningResolver::new());
    let mut resolver = NoLearningResolver::new();
    let result = resolver.resolve_conflict(&mut solver.state);
    assert!(result.is_none());
    assert_eq!(Ok(()), resolver.process(&mut solver.state, &result));
    assert_eq!(0, solver.state.engine.assignments_integer.get_decision_level());
    assert_eq!(-1, solver.state.engine.assignments_integer.get_lower_bound(x));
    assert_eq!(Err(()), resolver.process(&mut solver.state, &result));
}

#[test]
fn resolution_blames_the_decision() {
    let (mut solver, [x, _, _]) = conflict_after_one_decision(ResolutionResolver::new());
    let mut resolver = ResolutionResolver::new();
    let result = resolver.resolve_conflict(&mut solver.state);
    let Some(ConflictResolveResult::Nogood(nogood)) = &result else { panic!("expected a nogood") };
    assert_eq!(vec![Predicate::UpperBound { domain_id: x, upper_bound: -2 }], nogood.predicates);
    assert_eq!(0, nogood.backjump_level);
    assert!(resolver.activity(x) > 0);
    assert_eq!(0, resolver.activity(DomainId::new(9)));
    assert_eq!(Ok(()), resolver.process(&mut solver.state, &result));
    assert_eq!(0, solver.state.engine.assignments_integer.get_decision_level());
    assert_eq!(-1, solver.state.engine.assignments_integer.get_lower_bound(x));
}

#[test]
fn a_reified_inequality_is_searched_with_the_fallback() {
    let mut solver = Solver::new();
    let x = solver.new_bounded_integer(0, 4);
    let y = solver.new_bounded_integer(0, 4);
    let p = solver.new_bounded_integer(0, 1);
    // p <-> x <= 1, together with x + y >= 6 and p + y <= 4
    assert!(solver.add_reified_constraint(LinearLessOrEqual::new(vec![(x, 1)], 1), p).is_ok());
    assert!(solver.add_constraint(LinearLessOrEqual::new(vec![(x, -1), (y, -1)], -6)).is_ok());
    assert!(solver.add_constraint(LinearLessOrEqual::new(vec![(p, 1), (y, 1)], 4)).is_ok());
    assert!(solver.add_reified_constraint(LinearLessOrEqual::new(vec![(x, 1)], 1), x).is_err());
    let mut brancher = MaxRegret::new(&[p, x, y]);
    let SatisfactionResult::Satisfiable(solution) = solver.satisfy(&mut brancher, 10_000) else {
        panic!("expected a solution")
    };
    let (vx, vy, vp) = (
        solution.get_integer_value(x),
        solution.get_integer_value(y),
        solution.get_integer_value(p),
    );
    assert!(vx + vy >= 6 && vp + vy <= 4);
    assert_eq!(vp == 1, vx <= 1);

    let mut solver = Solver::new();
    let x = solver.new_bounded_integer(0, 4);
    let p = solver.new_bounded_integer(0, 1);
    let q = solver.new_bounded_integer(0, 1);
    // p <-> x <= 1 and q <-> x >= 2 cannot both be false
    assert!(solver.add_reified_constraint(LinearLessOrEqual::new(vec![(x, 1)], 1), p).is_ok());
    assert!(solver.add_reified_constraint(LinearLessOrEqual::new(vec![(x, -1)], -2), q).is_ok());
    assert!(solver.add_constraint(LinearLessOrEqual::new(vec![(p, 1), (q, 1)], 0)).is_err());
    let mut brancher = MaxRegret::new(&[x, p, q]);
    assert!(matches!(solver.satisfy(&mut brancher, 10_000), SatisfactionResult::Unsatisfiable));
}

#[test]
fn no_solution_makes_a_learned_nogood_true() {
    // x + y + z >= 2 and y + z <= 1 over 0..=1: every solution has x = 1.
    let mut solver = Solver::with_resolver(ResolutionResolver::new());
    let x = solver.new_bounded_integer(0, 1);
    let y = solver.new_bounded_integer(0, 1);
    let z = solver.new_bounded_integer(0, 1);
    assert!(solver.add_constraint(LinearLessOrEqual::new(vec![(x, -1), (y, -1), (z, -1)], -2)).is_ok());
    assert!(solver.add_constraint(LinearLessOrEqual::new(vec![(y, 1), (z, 1)], 1)).is_ok());
    assert!(solver.decide(Predicate::UpperBound { domain_id: x, upper_bound: 0 }).is_ok());
    let status = propagate_to_fixpoint(
        &mut solver.state.engine,
        &solver.state.propagators,
        &mut solver.state.reason_store,
    );
    let Err(info) = status else { panic!("expected a conflict") };
    solver.state.record_conflict(info);

    let mut resolver = ResolutionResolver::new();
    let result = resolver.resolve_conflict(&mut solver.state);
    let Some(ConflictResolveResult::Nogood(nogood)) = &result else { panic!("expected a nogood") };
    assert_eq!(vec![Predicate::UpperBound { domain_id: x, upper_bound: 0 }], nogood.predicates);
    assert_eq!(0, nogood.backjump_level);

    let mut solutions = 0;
    for a in 0..=1 {
        for b in 0..=1 {
            for c in 0..=1 {
                if a + b + c >= 2 && b + c <= 1 {
                    solutions += 1;
                    let values = [a, b, c];
                    let all_true = nogood.predicates.iter().all(|predicate| match predicate {
                        Predicate::UpperBound { domain_id, upper_bound } => {
                            values[domain_id.id as usize] <= *upper_bound
                        }
                        Predicate::LowerBound { domain_id, lower_bound } => {
                            values[domain_id.id as usize] >= *lower_bound
                        }
                        _ => panic!("a nogood holds bounds only"),
                    });
                    assert!(!all_true);
                }
            }
        }
    }
    assert_eq!(2, solutions);

    assert_eq!(Ok(()), resolver.process(&mut solver.state, &result));
    assert_eq!(1, solver.state.engine.assignments_integer.get_lower_bound(x));
}

#[test]
fn an_inequality_tied_to_a_literal_is_explained_by_both_bounds() {
    // p <-> x <= 1, with p >= 1 decided and then x >= 2.
    let mut solver = Solver::with_resolver(ResolutionResolver::new());
    let x = solver.new_bounded_integer(0, 4);
    let p = solver.new_bounded_integer(0, 1);
    assert!(solver.add_reified_constraint(LinearLessOrEqual::new(vec![(x, 1)], 1), p).is_ok());
    assert!(solver.decide(Predicate::LowerBound { domain_id: p, lower_bound: 1 }).is_ok());
    assert!(solver.decide(Predicate::LowerBound { domain_id: x, lower_bound: 2 }).is_ok());
    let status = propagate_to_fixpoint(
        &mut solver.state.engine,
        &solver.state.propagators,
        &mut solver.state.reason_store,
    );
    let Err(info) = status else { panic!("expected a conflict") };
    solver.state.record_conflict(info);
    let mut resolver = ResolutionResolver::new();
    let result = resolver.resolve_conflict(&mut solver.state);
    let Some(ConflictResolveResult::Nogood(nogood)) = &result else { panic!("expected a nogood") };
    assert_eq!(
        vec![
            Predicate::LowerBound { domain_id: x, lower_bound: 2 },
            Predicate::LowerBound { domain_id: p, lower_bound: 1 },
        ],
        nogood.predicates
    );
    assert_eq!(1, nogood.backjump_level);
    assert_eq!(Ok(()), resolver.process(&mut solver.state, &result));
    assert_eq!(1, solver.state.engine.assignments_integer.get_decision_level());
    assert_eq!(1, solver.state.engine.assignments_integer.get_upper_bound(x));
}

#[test]
fn a_literal_that_was_inferred_is_replaced_by_what_it_followed_from() {
    // p <-> x <= 1 and p + y <= 1: x <= 1 makes p true, which makes y <= 0,
    // against y >= 1.
    let mut solver = Solver::with_resolver(ResolutionResolver::new());
    let x = solver.new_bounded_integer(0, 4);
    let y = solver.new_bounded_integer(0, 1);
    let p = solver.new_bounded_integer(0, 1);
    assert!(solver.add_reified_constraint(LinearLessOrEqual::new(vec![(x, 1)], 1), p).is_ok());
    assert!(solver.add_constraint(LinearLessOrEqual::new(vec![(p, 1), (y, 1)], 1)).is_ok());
    assert!(solver.decide(Predicate::LowerBound { domain_id: y, lower_bound: 1 }).is_ok());
    assert!(propagate_to_fixpoint(
        &mut solver.state.engine,
        &solver.state.propagators,
        &mut solver.state.reason_store,
    )
    .is_ok());
    assert_eq!(0, solver.state.engine.assignments_integer.get_upper_bound(p));
    assert_eq!(2, solver.state.engine.assignments_integer.get_lower_bound(x));

    // x + y <= 2 now fails: its least value is 2 + 1.
    let mut solver = Solver::with_resolver(ResolutionResolver::new());
    let x = solver.new_bounded_integer(0, 4);
    let y = solver.new_bounded_integer(0, 1);
    let p = solver.new_bounded_integer(0, 1);
    assert!(solver.add_reified_constraint(LinearLessOrEqual::new(vec![(x, 1)], 1), p).is_ok());
    assert!(solver.add_constraint(LinearLessOrEqual::new(vec![(p, 1), (y, 1)], 1)).is_ok());
    assert!(solver.add_constraint(LinearLessOrEqual::new(vec![(x, 1), (y, 2)], 3)).is_ok());
    assert!(solver.decide(Predicate::LowerBound { domain_id: y, lower_bound: 1 }).is_ok());
    let status = propagate_to_fixpoint(
        &mut solver.state.engine,
        &solver.state.propagators,
        &mut solver.state.reason_store,
    );
    let Err(info) = status else { panic!("expected a conflict") };
    solver.state.record_conflict(info);
    let mut resolver = ResolutionResolver::new();
    let result = resolver.resolve_conflict(&mut solver.state);
    let Some(ConflictResolveResult::Nogood(nogood)) = &result else { panic!("expected a nogood") };
    assert_eq!(vec![Predicate::LowerBound { domain_id: y, lower_bound: 1 }], nogood.predicates);
    assert_eq!(0, nogood.backjump_level);
    assert_eq!(Ok(()), resolver.process(&mut solver.state, &result));
    assert_eq!(0, solver.state.engine.assignments_integer.get_upper_bound(y));
}

#[test]
fn a_fallback_is_counted_and_hands_out_what_resolution_learns() {
    // the decision is reached before any cut: the analysis falls back
    let (mut solver, [x, _, _]) = conflict_after_one_decision(IntSatConflictResolver::new());
    let mut by_resolution = ResolutionResolver::new();
    let expected = by_resolution.resolve_conflict(&mut solver.state);
    let before = solver.state.counters;
    let mut resolver = IntSatConflictResolver::new();
    let result = resolver.resolve_conflict(&mut solver.state);
    let after = solver.state.counters;
    match (&result, &expected) {
        (Some(ConflictResolveResult::Constraint(_)), _) => {
            assert_eq!(before.intsat_statistics.intsat_fallback_used, after.intsat_statistics.intsat_fallback_used);
            assert_eq!(
                before.intsat_statistics.intsat_learned_constraints + 1,
                after.intsat_statistics.intsat_learned_constraints
            );
        }
        (Some(ConflictResolveResult::Nogood(given)), Some(ConflictResolveResult::Nogood(wanted))) => {
            assert_eq!(before.intsat_statistics.intsat_fallback_used + 1, after.intsat_statistics.intsat_fallback_used);
            assert_eq!(wanted.predicates, given.predicates);
            assert_eq!(wanted.backjump_level, given.backjump_level);
        }
        (None, None) => {
            assert_eq!(before.intsat_statistics.intsat_fallback_used + 1, after.intsat_statistics.intsat_fallback_used);
        }
        _ => panic!("the fallback differs from the resolution resolver"),
    }
    assert_eq!(by_resolution.activity(x), resolver.resolution_resolver.activity(x));
}

#[test]
fn a_learned_inequality_waits_and_is_watched() {
    let (mut solver, _) = conflict_after_one_decision(IntSatConflictResolver::new());
    let mut resolver = IntSatConflictResolver::new();
    let x = DomainId::new(0);
    let y = DomainId::new(1);
    let learned = LearnedConstraint {
        constraint: LinearLessOrEqual::new(vec![(x, 1), (y, -1)], 0),
        backjump_level: 0,
    };
    let count = solver.state.propagators.num_propagators() as u32;
    let lower_before = solver.state.engine.watch_list_cp.watchers[0].lower_bound_watchers.len();
    let upper_before = solver.state.engine.watch_list_cp.watchers[1].upper_bound_watchers.len();
    let entries = solver.state.learned_constraint_log.num_items();
    let result = Some(ConflictResolveResult::Constraint(learned));
    assert_eq!(Ok(()), resolver.process(&mut solver.state, &result));
    assert_eq!(0, solver.state.engine.assignments_integer.get_decision_level());
    assert_eq!(count + 1, solver.state.propagators.num_propagators() as u32);
    assert!(solver.state.engine.propagator_queue.is_propagator_enqueued(PropagatorId(count)));
    assert_eq!(PropagatorId(count), solver.state.engine.propagator_queue.pop());
    assert!(solver.state.engine.propagator_queue.is_empty());
    let lower = &solver.state.engine.watch_list_cp.watchers[0].lower_bound_watchers;
    let upper = &solver.state.engine.watch_list_cp.watchers[1].upper_bound_watchers;
    assert_eq!(lower_before + 1, lower.len());
    assert_eq!(upper_before + 1, upper.len());
    assert_eq!(PropagatorId(count), lower[lower.len() - 1].propagator);
    assert_eq!(PropagatorId(count), upper[upper.len() - 1].propagator);
    assert_eq!(entries + 1, solver.state.learned_constraint_log.num_items());
}
