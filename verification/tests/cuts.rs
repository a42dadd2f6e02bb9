use pumpkin_solver::basic_types::domain_id::DomainId;
use pumpkin_solver::basic_types::linear_less_or_equal::LinearLessOrEqual;
use pumpkin_solver::engine::conflict_analysis::cut::CutResult::Contradiction;
use pumpkin_solver::engine::conflict_analysis::cut::CutResult::NothingLearned;
use pumpkin_solver::engine::conflict_analysis::cut::CutResult::Overflow;
use pumpkin_solver::engine::conflict_analysis::cut::CutResult::Success;
use pumpkin_solver::engine::conflict_analysis::intsat_conflict_resolver::IntSatConflictResolver;

fn construct_test_vars() -> [DomainId; 5] {
    let a = DomainId::new(0);
    let b = DomainId::new(1);
    let c = DomainId::new(2);
    let d = DomainId::new(3);
    let e = DomainId::new(4);

    [a, b, c, d, e]
}

#[test]
fn test_cut_simple() {
    let [a, b, c, d, e] = construct_test_vars();

    let x = LinearLessOrEqual::new(vec![(a, 10), (b, 2), (c, 4), (d, -5)], 12);

    let y = LinearLessOrEqual::new(vec![(a, -4), (b, -4), (c, 6), (e, 8)], -6);

    let cut_result = IntSatConflictResolver::apply_cut(a, &x, &y);

    let Success { skip_early_backjump, inequality } = cut_result else {
        panic!("expected a successful cut")
    };

    let z = LinearLessOrEqual::new(vec![(b, -8), (c, 19), (d, -5), (e, 20)], -3);

    assert_eq!(skip_early_backjump, false, "should be backjumping early due to clash");
    assert_eq!(inequality, z);
}

#[test]
fn test_cut_same_coeff() {
    let [a, b, c, d, e] = construct_test_vars();

    let x = LinearLessOrEqual::new(vec![(a, -4), (b, 2), (c, 4), (d, -5)], 10);

    let y = LinearLessOrEqual::new(vec![(a, 4), (b, -4), (c, 6), (e, 8)], -5);

    let cut_result = IntSatConflictResolver::apply_cut(a, &x, &y);

    let Success { skip_early_backjump, inequality } = cut_result else {
        panic!("expected a successful cut")
    };

    let z = LinearLessOrEqual::new(vec![(b, -2), (c, 10), (d, -5), (e, 8)], 5);

    assert_eq!(skip_early_backjump, false, "should be backjumping early due to clash");
    assert_eq!(inequality, z);
}

#[test]
fn test_cut_no_clash() {
    let [a, b, c, d, e] = construct_test_vars();

    let x = LinearLessOrEqual::new(vec![(a, -4), (b, 2), (c, 4), (d, -5)], 10);

    let y = LinearLessOrEqual::new(vec![(a, 4), (e, 8)], -5);

    let cut_result = IntSatConflictResolver::apply_cut(a, &x, &y);

    let Success { skip_early_backjump, inequality } = cut_result else {
        panic!("expected a successful cut")
    };

    let z = LinearLessOrEqual::new(vec![(b, 2), (c, 4), (d, -5), (e, 8)], 5);

    assert_eq!(skip_early_backjump, true, "should not be backjumping early due to lack of clash");
    assert_eq!(inequality, z);
}

#[test]
fn test_cut_fully_clash() {
    let [a, b, c, d, e] = construct_test_vars();

    let x = LinearLessOrEqual::new(vec![(a, -10), (b, 2), (c, 4), (d, -5), (e, -1)], 10);

    let y = LinearLessOrEqual::new(vec![(a, 4), (b, -4), (c, 6), (d, 5), (e, 8)], -5);

    let cut_result = IntSatConflictResolver::apply_cut(a, &x, &y);

    let Success { skip_early_backjump, inequality } = cut_result else {
        panic!("expected a successful cut")
    };

    let z = LinearLessOrEqual::new(vec![(b, -16), (c, 38), (d, 15), (e, 38)], -5);

    assert_eq!(skip_early_backjump, false, "should be backjumping early due to clash");
    assert_eq!(inequality, z);
}

#[test]
fn test_cut_contradiction() {
    let [a, b, c, d, e] = construct_test_vars();

    let x = LinearLessOrEqual::new(vec![(a, -2), (b, 2), (c, -3), (d, -5), (e, -4)], 0);

    let y = LinearLessOrEqual::new(vec![(a, 4), (b, -4), (c, 6), (d, 10), (e, 8)], -5);

    let cut_result = IntSatConflictResolver::apply_cut(a, &x, &y);

    assert!(matches!(cut_result, Contradiction {}));
}

#[test]
fn test_cut_nothing_learned() {
    let [a, b, c, d, e] = construct_test_vars();

    let x = LinearLessOrEqual::new(vec![(a, -2), (b, 2), (c, -3), (d, -5), (e, -4)], 10);

    let y = LinearLessOrEqual::new(vec![(a, 4), (b, -4), (c, 6), (d, 10), (e, 8)], -5);

    let cut_result = IntSatConflictResolver::apply_cut(a, &x, &y);

    assert!(matches!(cut_result, NothingLearned {}));
}

#[test]
fn test_cut_overflow() {
    let [a, b, c, d, e] = construct_test_vars();

    let x = LinearLessOrEqual::new(
        vec![(a, -99997), (b, 223545223), (c, -3), (d, -5), (e, -4)],
        10,
    );

    let y = LinearLessOrEqual::new(vec![(a, 99995), (b, -1000), (c, 6), (d, 10), (e, 8)], -5);

    let cut_result = IntSatConflictResolver::apply_cut(a, &x, &y);

    assert!(matches!(cut_result, Overflow {}));
}

#[test]
fn a_cut_comes_out_sorted_by_variable_and_without_the_cancelled_one() {
    let [a, b, c, _d, _e] = construct_test_vars();
    let x = LinearLessOrEqual::new(vec![(c, 3), (a, 6), (b, 9)], 12);
    let y = LinearLessOrEqual::new(vec![(a, -4), (c, 1)], 2);
    let Success { inequality, skip_early_backjump } = IntSatConflictResolver::apply_cut(a, &x, &y) else {
        panic!("expected a successful cut")
    };
    // 2 * x + 3 * y = 18b + 9c <= 30, and divided by 3: 6b + 3c <= 10
    assert_eq!(vec![(b, 6), (c, 3)], inequality.lhs.0);
    assert_eq!(10, inequality.rhs);
    assert!(!skip_early_backjump);
    assert!(!inequality.contains_variable(a));
    assert_eq!(None, inequality.find_variable_scale(a));
    assert_eq!(Some(6), inequality.find_variable_scale(b));
}

#[test]
fn a_cut_with_the_least_coefficient_overflows() {
    let [a, b, _c, _d, _e] = construct_test_vars();
    let x = LinearLessOrEqual::new(vec![(a, i32::MIN), (b, 1)], 0);
    let y = LinearLessOrEqual::new(vec![(a, 2)], 0);
    assert!(matches!(IntSatConflictResolver::apply_cut(a, &x, &y), Overflow {}));
}

#[test]
fn inequalities_are_equal_whatever_the_order_of_their_terms() {
    let [a, b, c, _d, _e] = construct_test_vars();
    let x = LinearLessOrEqual::new(vec![(a, 1), (b, 2), (c, 3)], 4);
    let y = LinearLessOrEqual::new(vec![(c, 3), (a, 1), (b, 2)], 4);
    assert_eq!(x, y);
    assert_ne!(x, LinearLessOrEqual::new(vec![(c, 3), (a, 1), (b, 2)], 5));
    assert_ne!(x, LinearLessOrEqual::new(vec![(c, 3), (a, 1), (b, 1)], 4));
    assert_ne!(x, LinearLessOrEqual::new(vec![(c, 3), (a, 1)], 4));
}
