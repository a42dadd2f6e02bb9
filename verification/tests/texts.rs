use pumpkin_solver::flatzinc::collect_domains::is_output_variable;
use pumpkin_solver::basic_types::domain_id::DomainId;
use pumpkin_solver::basic_types::linear_less_or_equal::LinearLessOrEqual;
use pumpkin_solver::basic_types::predicate::Predicate;
use pumpkin_solver::basic_types::text::conjunction_to_text;
use pumpkin_solver::basic_types::text::predicate_to_text;
use pumpkin_solver::basic_types::text::variable_to_text;
use pumpkin_solver::flatzinc::instance::ArrayOutput;
use pumpkin_solver::flatzinc::instance::FlatZincInstance;
use pumpkin_solver::flatzinc::instance::Output;
use pumpkin_solver::flatzinc::instance::VariableOutput;
use pumpkin_solver::statistics::learned_constraint_log::LearnedConstraintLog;
use pumpkin_solver::statistics::learned_constraint_log::LearnedConstraintLogItem;
use pumpkin_solver::statistics::learned_constraint_log::VariableDomains;

#[test]
fn an_inequality_is_written_in_the_order_of_its_variables() {
    let (a, b, c, d) = (DomainId::new(0), DomainId::new(1), DomainId::new(2), DomainId::new(10));
    let inequality = LinearLessOrEqual::new(vec![(d, -1), (b, 1), (a, -3), (c, 12)], -7);
    assert_eq!("-3x0 + x1 + 12x2 + -x10 <= -7", inequality.to_text());
    assert_eq!(" <= 0", LinearLessOrEqual::new(vec![], 0).to_text());
    assert_eq!("x1 <= 2147483647", LinearLessOrEqual::new(vec![(a, 0), (b, 1)], i32::MAX).to_text());
    assert_eq!(
        "-2147483648x0 <= -2147483648",
        LinearLessOrEqual::new(vec![(a, i32::MIN)], i32::MIN).to_text()
    );
}

#[test]
fn predicates_are_written_in_brackets() {
    let x = DomainId::new(4);
    assert_eq!("x4", variable_to_text(x));
    assert_eq!("[x4 >= -3]", predicate_to_text(&Predicate::LowerBound { domain_id: x, lower_bound: -3 }));
    assert_eq!("[x4 <= 0]", predicate_to_text(&Predicate::UpperBound { domain_id: x, upper_bound: 0 }));
    assert_eq!(
        "[x4 != 17]",
        predicate_to_text(&Predicate::NotEqual { domain_id: x, not_equal_constant: 17 })
    );
    assert_eq!(
        "[x4 == 100]",
        predicate_to_text(&Predicate::Equal { domain_id: x, equality_constant: 100 })
    );
    assert_eq!("[True]", predicate_to_text(&Predicate::True));
    assert_eq!("[False]", predicate_to_text(&Predicate::False));
    assert_eq!("", conjunction_to_text(&vec![]));
    assert_eq!(
        "[x4 >= 1]; [False]",
        conjunction_to_text(&vec![Predicate::LowerBound { domain_id: x, lower_bound: 1 }, Predicate::False])
    );
}

#[test]
fn the_log_has_one_line_for_each_item() {
    let (a, b) = (DomainId::new(0), DomainId::new(1));
    let mut log = LearnedConstraintLog::new();
    assert_eq!("", log.to_text());
    log.log_item(LearnedConstraintLogItem::NewPropagator {
        propagator_id: 4,
        learned_constraint: LinearLessOrEqual::new(vec![(a, -1)], -1),
    });
    log.update_num_conflicts(3);
    log.log_item(LearnedConstraintLogItem::ConflictResult {
        learned_constraint: LinearLessOrEqual::new(vec![(b, 2), (a, 1)], 5),
        learned_nogoods: vec![Predicate::UpperBound { domain_id: a, upper_bound: 2 }],
    });
    log.log_item(LearnedConstraintLogItem::ConstraintPropagation {
        propagator_id: 7,
        propagated_var: b,
        domains_at_propagation: VariableDomains(vec![(a, (0, 3)), (b, (-1, 1))]),
    });
    log.update_num_conflicts(u64::MAX);
    log.log_item(LearnedConstraintLogItem::ConstraintError {
        propagator_id: 8,
        domains_at_error: VariableDomains(vec![]),
    });
    assert_eq!(4, log.num_items());
    assert_eq!(
        "0|NP|4|-x0 <= -1\n3|CR|x0 + 2x1 <= 5|[x0 <= 2]\n3|CP|7|0:(0,3) 1:(-1,1)|x1\n18446744073709551615|CE|8|\n",
        log.to_text()
    );
    assert_eq!(
        "NNG|2|x1 <= 0",
        LearnedConstraintLogItem::NewNogood {
            nogood_id: 2,
            learned_constraint: LinearLessOrEqual::new(vec![(b, 1)], 0),
        }
        .to_text()
    );
    assert_eq!(
        "NGP|2|1:(4,4)|x0",
        LearnedConstraintLogItem::NogoodPropagation {
            nogood_id: 2,
            propagated_var: a,
            domains_at_propagation: VariableDomains(vec![(b, (4, 4))]),
        }
        .to_text()
    );
}

#[test]
fn outputs_are_written_as_assignments() {
    let x = DomainId::new(0);
    let variable = VariableOutput { id: String::from("total"), variable: x };
    assert_eq!("total = 42;", variable.to_text("42"));
    let array = ArrayOutput {
        id: String::from("grid"),
        shape: vec![(1, 2), (0, 2)],
        contents: vec![x, x, x, x, x, x],
    };
    let values: Vec<String> = vec!["1", "2", "3", "4", "5", "6"].into_iter().map(String::from).collect();
    assert_eq!("grid = array2d(1..2, 0..2, [1, 2, 3, 4, 5, 6]);", array.to_text(&values));
    let empty = ArrayOutput { id: String::from("none"), shape: vec![(1, 0)], contents: Vec::<DomainId>::new() };
    assert_eq!("none = array1d(1..0, []);", empty.to_text(&vec![]));
}

#[test]
fn an_instance_keeps_its_outputs_in_order() {
    let x = DomainId::new(3);
    let flag = Predicate::LowerBound { domain_id: x, lower_bound: 1 };
    let mut instance = FlatZincInstance::new();
    instance.outputs.push(Output::integer(String::from("x"), x));
    instance.outputs.push(Output::bool(String::from("b"), flag));
    instance.outputs.push(Output::array_of_int(String::from("xs"), vec![(1, 2)], vec![x, x]));
    instance.outputs.push(Output::array_of_bool(String::from("bs"), vec![(1, 1)], vec![flag]));
    let outputs = instance.outputs();
    assert_eq!(4, outputs.len());
    assert_eq!(Output::Int(VariableOutput { id: String::from("x"), variable: x }), outputs[0]);
    assert_eq!(Output::Bool(VariableOutput { id: String::from("b"), variable: flag }), outputs[1]);
    assert!(matches!(&outputs[2], Output::ArrayOfInt(array) if array.contents.len() == 2));
    assert!(matches!(&outputs[3], Output::ArrayOfBool(array) if array.shape == vec![(1, 1)]));
}

#[test]
fn a_variable_is_printed_where_an_annotation_says_so() {
    assert!(!is_output_variable(&vec![]));
    assert!(!is_output_variable(&vec!["is_defined_var".to_string(), "output_array".to_string()]));
    assert!(is_output_variable(&vec!["is_defined_var".to_string(), "output_var".to_string()]));
    assert!(!is_output_variable(&vec!["output_var ".to_string()]));
}

#[test]
fn a_linear_constraint_is_written_as_an_inequality_is() {
    let constraint = pumpkin_solver::engine::propagation::linear_constraint::LinearConstraint {
        lhs: vec![(DomainId::new(2), -1), (DomainId::new(0), 3), (DomainId::new(1), 1)],
        rhs: -4,
    };
    assert_eq!("3x0 + x1 + -x2 <= -4", constraint.to_text());
}
