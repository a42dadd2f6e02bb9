use pumpkin_solver::branching::max_regret::MaxRegret;
use pumpkin_solver::branching::selection_context::SelectionContext;
use pumpkin_solver::branching::variable_selector::VariableSelector;

#[test]
fn test_correctly_selected() {
    let mut assignments_integer = SelectionContext::create_for_testing(2, Some(vec![(0, 10), (5, 20)]));
    let integer_variables = assignments_integer.get_domains();
    let mut strategy = MaxRegret::new(&integer_variables);

    let _ = assignments_integer.remove_value_from_domain(integer_variables[1], 6, None);

    {
        let context = SelectionContext::new(&assignments_integer);

        let selected = strategy.select_variable(&context);
        assert!(selected.is_some());
        assert_eq!(selected.unwrap(), integer_variables[1]);
    }

    let _ = assignments_integer.remove_value_from_domain(integer_variables[0], 1, None);
    let _ = assignments_integer.remove_value_from_domain(integer_variables[0], 2, None);

    let context = SelectionContext::new(&assignments_integer);

    let selected = strategy.select_variable(&context);
    assert!(selected.is_some());
    assert_eq!(selected.unwrap(), integer_variables[0])
}

#[test]
fn fixed_variables_are_not_selected() {
    let assignments_integer = SelectionContext::create_for_testing(2, Some(vec![(10, 10), (20, 20)]));
    let context = SelectionContext::new(&assignments_integer);
    let integer_variables = context.get_domains();

    let mut strategy = MaxRegret::new(&integer_variables);
    let selected = strategy.select_variable(&context);
    assert!(selected.is_none());
}

#[test]
fn of_equal_regrets_the_first_variable_wins() {
    let assignments_integer = SelectionContext::create_for_testing(3, Some(vec![(4, 4), (0, 3), (7, 9)]));
    let context = SelectionContext::new(&assignments_integer);
    let integer_variables = context.get_domains();
    let mut strategy = MaxRegret::new(&integer_variables);
    assert_eq!(Some(integer_variables[1]), strategy.select_variable(&context));
}
