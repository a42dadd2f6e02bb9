use pumpkin_solver::basic_types::domain_id::DomainId;
use pumpkin_solver::basic_types::linear_less_or_equal::LinearLessOrEqual;
use pumpkin_solver::basic_types::predicate::Predicate;
use pumpkin_solver::branching::max_regret::MaxRegret;
use pumpkin_solver::engine::conflict_analysis::no_learning_resolver::NoLearningResolver;
use pumpkin_solver::engine::conflict_analysis::resolution_resolver::ResolutionResolver;
use pumpkin_solver::solver::ConstraintOperationError;
use pumpkin_solver::solver::SatisfactionResult;
use pumpkin_solver::solver::Solver;

fn less_than_or_equals(terms: Vec<(DomainId, i32)>, rhs: i32) -> LinearLessOrEqual {
    LinearLessOrEqual::new(terms, rhs)
}

#[test]
fn simple_infeasible_linear_system_is_unsatisfiable() {
    let mut solver = Solver::new();
    let x = solver.new_bounded_integer(0, 3);
    let y = solver.new_bounded_integer(0, 3);

    let first = solver.add_constraint(less_than_or_equals(vec![(x, 3), (y, 4)], -2));
    assert_eq!(Err(ConstraintOperationError::InfeasibleState), first);
    let second = solver.add_constraint(less_than_or_equals(vec![(y, -1)], -1));
    assert_eq!(Err(ConstraintOperationError::InfeasibleState), second);

    let mut brancher = MaxRegret::new(&[x, y]);
    assert!(matches!(solver.satisfy(&mut brancher, 1000), SatisfactionResult::Unsatisfiable));
}

fn post_three_variable_system<R>(solver: &mut Solver<R>) -> Vec<DomainId>
where
    R: pumpkin_solver::engine::conflict_analysis::conflict_resolver::ConflictResolver,
{
    let x = solver.new_bounded_integer(-10, 1);
    let y = solver.new_bounded_integer(-10, 1);
    let z = solver.new_bounded_integer(-10, 3);

    assert!(solver.add_constraint(less_than_or_equals(vec![(x, -1), (y, -1), (z, -1)], -2)).is_ok());
    assert!(solver.add_constraint(less_than_or_equals(vec![(x, 1), (y, 1)], 1)).is_ok());
    assert!(solver.add_constraint(less_than_or_equals(vec![(x, 1), (z, 1)], 1)).is_ok());
    assert!(solver.add_constraint(less_than_or_equals(vec![(y, 1), (z, 1)], 1)).is_ok());
    vec![x, y, z]
}

#[test]
fn three_variable_infeasible_system_is_unsatisfiable() {
    let mut solver = Solver::new();
    let vars = post_three_variable_system(&mut solver);
    let mut brancher = MaxRegret::new(&vars);
    assert!(matches!(solver.satisfy(&mut brancher, 10_000), SatisfactionResult::Unsatisfiable));
    assert!(solver.state.counters.intsat_statistics.intsat_learned_constraints >= 1);
}

#[test]
fn three_variable_infeasible_system_is_unsatisfiable_without_learning() {
    let mut solver = Solver::with_resolver(NoLearningResolver::new());
    let vars = post_three_variable_system(&mut solver);
    let mut brancher = MaxRegret::new(&vars);
    assert!(matches!(solver.satisfy(&mut brancher, 10_000), SatisfactionResult::Unsatisfiable));
}

#[test]
fn three_variable_infeasible_system_is_unsatisfiable_by_resolution() {
    let mut solver = Solver::with_resolver(ResolutionResolver::new());
    let vars = post_three_variable_system(&mut solver);
    let mut brancher = MaxRegret::new(&vars);
    assert!(matches!(solver.satisfy(&mut brancher, 10_000), SatisfactionResult::Unsatisfiable));
}

#[test]
fn root_propagation_narrows_the_three_variable_system() {
    let mut solver = Solver::new();
    let vars = post_three_variable_system(&mut solver);
    assert_eq!(-2, solver.lower_bound(vars[0]));
    assert_eq!(1, solver.upper_bound(vars[0]));
    assert_eq!(-2, solver.lower_bound(vars[1]));
    assert_eq!(0, solver.lower_bound(vars[2]));
    assert_eq!(3, solver.upper_bound(vars[2]));
}

#[test]
fn a_feasible_system_gets_a_solution_that_satisfies_it() {
    let mut solver = Solver::new();
    let x = solver.new_bounded_integer(0, 10);
    let y = solver.new_bounded_integer(0, 10);
    let z = solver.new_bounded_integer(-5, 5);
    // x + y >= 7, x - y <= 1, y - x <= 2, x + y + z <= 6
    assert!(solver.add_constraint(less_than_or_equals(vec![(x, -1), (y, -1)], -7)).is_ok());
    assert!(solver.add_constraint(less_than_or_equals(vec![(x, 1), (y, -1)], 1)).is_ok());
    assert!(solver.add_constraint(less_than_or_equals(vec![(y, 1), (x, -1)], 2)).is_ok());
    assert!(solver.add_constraint(less_than_or_equals(vec![(x, 1), (y, 1), (z, 1)], 6)).is_ok());
    let mut brancher = MaxRegret::new(&[x, y, z]);
    let SatisfactionResult::Satisfiable(solution) = solver.satisfy(&mut brancher, 10_000) else {
        panic!("expected a solution")
    };
    let (vx, vy, vz) = (
        solution.get_integer_value(x),
        solution.get_integer_value(y),
        solution.get_integer_value(z),
    );
    assert!(vx + vy >= 7);
    assert!(vx - vy <= 1);
    assert!(vy - vx <= 2);
    assert!(vx + vy + vz <= 6);
    assert!((0..=10).contains(&vx) && (0..=10).contains(&vy) && (-5..=5).contains(&vz));
    assert!(solver.check_solution(&solution.values));
    assert!(!solver.check_solution(&vec![0, 0, 0]));
}

fn pigeons_in_holes<R>(solver: &mut Solver<R>, pigeons: i32, holes: u32) -> Vec<DomainId>
where
    R: pumpkin_solver::engine::conflict_analysis::conflict_resolver::ConflictResolver,
{
    // every hole takes zero or one pigeon, and all pigeons must sit
    let vars: Vec<DomainId> = (0..holes).map(|_| solver.new_bounded_integer(0, pigeons)).collect();
    for var in &vars {
        let _ = solver.add_constraint(less_than_or_equals(vec![(*var, 1)], 1));
    }
    let _ = solver.add_constraint(less_than_or_equals(vars.iter().map(|v| (*v, -1)).collect(), -pigeons));
    vars
}

#[test]
fn more_pigeons_than_holes_is_unsatisfiable() {
    let mut solver = Solver::new();
    let vars = pigeons_in_holes(&mut solver, 5, 4);
    let mut brancher = MaxRegret::new(&vars);
    assert!(matches!(solver.satisfy(&mut brancher, 10_000), SatisfactionResult::Unsatisfiable));
}

#[test]
fn as_many_pigeons_as_holes_is_satisfiable() {
    let mut solver = Solver::new();
    let vars = pigeons_in_holes(&mut solver, 4, 4);
    let mut brancher = MaxRegret::new(&vars);
    let SatisfactionResult::Satisfiable(solution) = solver.satisfy(&mut brancher, 10_000) else {
        panic!("expected a solution")
    };
    for var in &vars {
        assert_eq!(1, solution.get_integer_value(*var));
    }
}

#[test]
fn a_search_that_is_cut_short_ends_unknown() {
    let mut solver = Solver::new();
    let vars = post_three_variable_system(&mut solver);
    let mut brancher = MaxRegret::new(&vars);
    assert!(matches!(solver.satisfy(&mut brancher, 1), SatisfactionResult::Unknown));
    assert!(matches!(solver.satisfy(&mut brancher, 0), SatisfactionResult::Unknown));
}

#[test]
fn an_ill_formed_constraint_is_refused() {
    let mut solver = Solver::new();
    let x = solver.new_bounded_integer(0, 3);
    assert_eq!(
        Err(ConstraintOperationError::InvalidConstraint),
        solver.add_constraint(less_than_or_equals(vec![(x, 1), (x, 2)], 3))
    );
    assert_eq!(
        Err(ConstraintOperationError::InvalidConstraint),
        solver.add_constraint(less_than_or_equals(vec![(x, 0)], 3))
    );
    assert_eq!(
        Err(ConstraintOperationError::InvalidConstraint),
        solver.add_constraint(less_than_or_equals(vec![(DomainId::new(5), 1)], 3))
    );
    assert_eq!(Ok(()), solver.add_constraint(less_than_or_equals(vec![(x, 2)], 5)));
    assert_eq!(2, solver.upper_bound(x));
}

#[test]
fn a_decision_opens_a_level_and_narrows_the_domain() {
    let mut solver = Solver::new();
    let x = solver.new_bounded_integer(0, 3);
    assert!(solver.decide(Predicate::LowerBound { domain_id: x, lower_bound: 2 }).is_ok());
    assert_eq!(2, solver.lower_bound(x));
    assert_eq!(1, solver.state.engine.assignments_integer.get_decision_level());
    let entry = solver.state.engine.assignments_integer.get_trail_entry(0);
    assert_eq!(None, entry.reason);
    assert_eq!(1, entry.decision_level);
    assert!(solver.decide(Predicate::False).is_err());
    assert_eq!(2, solver.state.engine.assignments_integer.get_decision_level());
}

/// Whether some values in `0..=3` for three variables meet every
/// inequality, each given by its three coefficients and its right-hand side.
fn has_solution_by_enumeration(system: &[([i32; 3], i32)]) -> bool {
    for a in 0..=3 {
        for b in 0..=3 {
            for c in 0..=3 {
                if system.iter().all(|(k, rhs)| k[0] * a + k[1] * b + k[2] * c <= *rhs) {
                    return true;
                }
            }
        }
    }
    false
}

fn answer_matches_enumeration<R>(resolver: R, system: &[([i32; 3], i32)])
where
    R: pumpkin_solver::engine::conflict_analysis::conflict_resolver::ConflictResolver,
{
    let mut solver = Solver::with_resolver(resolver);
    let vars: Vec<DomainId> = (0..3).map(|_| solver.new_bounded_integer(0, 3)).collect();
    for (coefficients, rhs) in system {
        let terms: Vec<(DomainId, i32)> = (0..3)
            .filter(|i| coefficients[*i] != 0)
            .map(|i| (vars[i], coefficients[i]))
            .collect();
        let _ = solver.add_constraint(less_than_or_equals(terms, *rhs));
    }
    let mut brancher = MaxRegret::new(&vars);
    match solver.satisfy(&mut brancher, 100_000) {
        SatisfactionResult::Satisfiable(solution) => {
            let values: Vec<i32> = vars.iter().map(|x| solution.get_integer_value(*x)).collect();
            assert!(values.iter().all(|v| (0..=3).contains(v)));
            for (k, rhs) in system {
                assert!(k[0] * values[0] + k[1] * values[1] + k[2] * values[2] <= *rhs);
            }
        }
        SatisfactionResult::Unsatisfiable => assert!(!has_solution_by_enumeration(system)),
        SatisfactionResult::Unknown => panic!("the search should have ended"),
    }
}

#[test]
fn the_answer_is_that_of_trying_every_assignment() {
    let systems: Vec<Vec<([i32; 3], i32)>> = vec![
        vec![([1, 1, 1], 4), ([-1, -1, -1], -4), ([1, -1, 0], 0), ([0, 1, -1], -1)],
        vec![([2, 3, 0], 6), ([-2, -3, 0], -6), ([1, 0, -1], -1), ([0, -1, 1], -2)],
        vec![([2, -2, 0], 1), ([-2, 2, 0], -1)],
        vec![([3, 2, 1], 5), ([-1, -1, -1], -5)],
        vec![([1, 1, 0], 3), ([0, 1, 1], 3), ([1, 0, 1], 3), ([-1, -1, -1], -5)],
        vec![([2, 2, 2], 7), ([-2, -2, -2], -7)],
        vec![([-1, 2, 0], 0), ([1, -2, 0], 0), ([0, -1, 2], 0), ([0, 1, -2], 0), ([-1, 0, 0], -1)],
        vec![([1, -1, 0], -1), ([0, 1, -1], -1), ([-1, 0, 1], -1)],
        vec![([1, 1, 1], 2), ([-1, 0, 0], -1), ([0, -1, 0], -1), ([0, 0, -1], 0)],
    ];
    for system in &systems {
        answer_matches_enumeration(pumpkin_solver::engine::conflict_analysis::intsat_conflict_resolver::IntSatConflictResolver::new(), system);
        answer_matches_enumeration(ResolutionResolver::new(), system);
        answer_matches_enumeration(NoLearningResolver::new(), system);
    }
}

#[test]
fn no_step_gives_no_answer() {
    let mut solver = Solver::new();
    let x = solver.new_bounded_integer(0, 3);
    let mut brancher = MaxRegret::new(&[x]);
    assert!(matches!(solver.satisfy(&mut brancher, 0), SatisfactionResult::Unknown));
}

#[test]
fn a_step_of_branching_decides_or_answers() {
    let mut solver = Solver::new();
    let x = solver.new_bounded_integer(2, 5);
    let y = solver.new_bounded_integer(1, 1);
    assert!(solver.add_constraint(less_than_or_equals(vec![(x, 1), (y, 1)], 4)).is_ok());
    assert_eq!(3, solver.upper_bound(x));

    // the strategy picked x: a level is opened and x takes its least value
    assert!(solver.branch_on(Some(x)).is_none());
    assert_eq!(1, solver.state.engine.assignments_integer.get_decision_level());
    assert_eq!(vec![Predicate::UpperBound { domain_id: x, upper_bound: 2 }], solver.state.decisions);
    assert_eq!(2, solver.upper_bound(x));

    // nothing is picked and the least values are a solution
    let Some(SatisfactionResult::Satisfiable(solution)) = solver.branch_on(None) else {
        panic!("expected a solution")
    };
    assert_eq!(vec![2, 1], solution.values);
    assert_eq!(1, solver.state.engine.assignments_integer.get_decision_level());

    // nothing is picked, the least values are no solution, and x is open
    let mut solver = Solver::new();
    let x = solver.new_bounded_integer(0, 5);
    let y = solver.new_bounded_integer(0, 5);
    assert!(solver.add_constraint(less_than_or_equals(vec![(x, -1), (y, -1)], -3)).is_ok());
    assert!(solver.branch_on(None).is_none());
    assert_eq!(vec![Predicate::UpperBound { domain_id: x, upper_bound: 0 }], solver.state.decisions);
}

#[test]
fn the_steps_of_the_search_are_counted() {
    let mut solver = Solver::new();
    let vars = post_three_variable_system(&mut solver);
    let mut brancher = MaxRegret::new(&vars);
    assert_eq!(0, solver.steps);
    assert!(matches!(solver.satisfy(&mut brancher, 1), SatisfactionResult::Unknown));
    assert_eq!(1, solver.steps);
    assert!(matches!(solver.satisfy(&mut brancher, 0), SatisfactionResult::Unknown));
    assert_eq!(1, solver.steps);
    assert!(matches!(solver.satisfy(&mut brancher, 100_000), SatisfactionResult::Unsatisfiable));
    assert!(solver.steps > 1);
}

#[test]
fn a_constraint_that_cannot_hold_is_reported_at_once() {
    let mut solver = Solver::new();
    let x = solver.new_bounded_integer(0, 3);
    let y = solver.new_bounded_integer(0, 3);
    // the least value of -x - y is -6
    assert_eq!(
        Err(ConstraintOperationError::InfeasibleState),
        solver.add_constraint(less_than_or_equals(vec![(x, -1), (y, -1)], -7))
    );
    let mut solver = Solver::new();
    let x = solver.new_bounded_integer(0, 3);
    let y = solver.new_bounded_integer(0, 3);
    assert!(solver.add_constraint(less_than_or_equals(vec![(x, -1), (y, -1)], -6)).is_ok());
    assert_eq!((3, 3), (solver.lower_bound(x), solver.lower_bound(y)));
}

#[test]
fn fixed_variables_that_satisfy_the_constraints_are_the_answer() {
    let mut solver = Solver::new();
    let x = solver.new_bounded_integer(2, 2);
    let y = solver.new_bounded_integer(1, 1);
    assert!(solver.add_constraint(less_than_or_equals(vec![(x, 1), (y, 1)], 3)).is_ok());
    let mut brancher = MaxRegret::new(&[x, y]);
    let SatisfactionResult::Satisfiable(solution) = solver.satisfy(&mut brancher, 1) else {
        panic!("expected a solution")
    };
    assert_eq!(vec![2, 1], solution.values);
    assert_eq!(0, solver.state.engine.assignments_integer.num_trail_entries());
}

#[test]
fn an_inequality_that_fails_at_the_root_ends_the_search_at_once() {
    let mut solver = Solver::new();
    let x = solver.new_bounded_integer(0, 5);
    let y = solver.new_bounded_integer(0, 5);
    assert!(solver.add_constraint(less_than_or_equals(vec![(x, 1), (y, 1)], 4)).is_ok());
    // the bounds are moved behind the solver's back, with the watchers told
    assert!(solver.state.engine.tighten_lower_bound(x, 3, None, &solver.state.propagators).is_ok());
    assert!(solver.state.engine.tighten_lower_bound(y, 2, None, &solver.state.propagators).is_ok());
    let mut brancher = MaxRegret::new(&[x, y]);
    assert!(matches!(solver.satisfy(&mut brancher, 1), SatisfactionResult::Unsatisfiable));
    assert!(solver.infeasible);
}
