use pumpkin_solver::basic_types::int_var::IntVar;
use pumpkin_solver::basic_types::domain_events::DomainEvents;
use pumpkin_solver::basic_types::domain_events::IntDomainEvent;
use pumpkin_solver::basic_types::domain_id::DomainId;
use pumpkin_solver::basic_types::predicate::Predicate;
use pumpkin_solver::basic_types::variables::AffineView;
use pumpkin_solver::basic_types::variables::Rounding;
use pumpkin_solver::engine::assignments_integer::AssignmentsInteger;
use pumpkin_solver::engine::propagator_queue::PropagatorId;
use pumpkin_solver::engine::watch_list_cp::LocalId;
use pumpkin_solver::engine::watch_list_cp::PropagatorVarId;
use pumpkin_solver::engine::watch_list_cp::WatchListCP;

#[test]
fn scaling_an_affine_view() {
    let view = AffineView::new(DomainId::new(0), 3, 4);
    assert_eq!(3, view.scale);
    assert_eq!(4, view.offset);
    let scaled_view = view.scaled(6);
    assert_eq!(18, scaled_view.scale);
    assert_eq!(24, scaled_view.offset);
}

#[test]
fn offsetting_an_affine_view() {
    let view = AffineView::new(DomainId::new(0), 3, 4);
    assert_eq!(3, view.scale);
    assert_eq!(4, view.offset);
    let scaled_view = view.offset(6);
    assert_eq!(3, scaled_view.scale);
    assert_eq!(10, scaled_view.offset);
}

#[test]
fn affine_view_obtaining_a_bound_should_round_optimistically_in_inner_domain() {
    let domain = DomainId::new(0);
    let view = AffineView::new(domain, 2, 0);

    assert_eq!(domain.lower_bound_predicate(1), view.lower_bound_predicate(1));

    assert_eq!(domain.lower_bound_predicate(-1), view.lower_bound_predicate(-3));

    assert_eq!(domain.upper_bound_predicate(0), view.upper_bound_predicate(1));

    assert_eq!(domain.upper_bound_predicate(-3), view.upper_bound_predicate(-5));
}

#[test]
fn scaling_by_one_and_offsetting_by_zero_change_nothing() {
    let x = DomainId::new(0);
    let view = x.scaled(7).scaled(1);
    assert_eq!(7, view.scale);
    assert_eq!(0, view.offset);
    let shifted = AffineView::new(x, 3, 4).offset(0);
    assert_eq!(AffineView::new(x, 3, 4), shifted);
}

#[test]
fn view_bounds_follow_the_inner_bounds() {
    let mut assignments = AssignmentsInteger::new();
    let x = assignments.grow(2, 5);
    let positive = AffineView::new(x, 3, 1);
    assert_eq!(7, positive.lower_bound(&assignments));
    assert_eq!(16, positive.upper_bound(&assignments));
    let negative = AffineView::new(x, -3, 1);
    assert_eq!(-14, negative.lower_bound(&assignments));
    assert_eq!(-5, negative.upper_bound(&assignments));
}

#[test]
fn tightening_the_upper_bound_of_a_doubled_variable_rounds_down() {
    let mut assignments = AssignmentsInteger::new();
    let x = assignments.grow(0, 5);
    let y = x.scaled(2);
    assert!(y.set_upper_bound(&mut assignments, 7, None).is_ok());
    assert_eq!(3, assignments.get_upper_bound(x));
    assert_eq!(0, y.lower_bound(&assignments));
    assert_eq!(6, y.upper_bound(&assignments));
}

#[test]
fn tightening_the_lower_bound_of_a_negated_variable_lowers_the_inner_upper_bound() {
    let mut assignments = AssignmentsInteger::new();
    let x = assignments.grow(0, 5);
    let y = x.scaled(-1);
    assert!(y.set_lower_bound(&mut assignments, -3, None).is_ok());
    assert_eq!(3, assignments.get_upper_bound(x));
    assert_eq!(0, assignments.get_lower_bound(x));
    assert_eq!(-3, y.lower_bound(&assignments));
}

#[test]
fn a_view_holds_the_images_of_the_inner_values_only() {
    let mut assignments = AssignmentsInteger::new();
    let x = assignments.grow(0, 5);
    let y = AffineView::new(x, 2, 1);
    assert!(y.contains(&assignments, 5));
    assert!(!y.contains(&assignments, 4));
    assert!(!y.contains(&assignments, 13));
    assert!(y.remove(&mut assignments, 4, None).is_ok());
    assert!(assignments.is_value_in_domain(x, 2));
    assert!(y.remove(&mut assignments, 5, None).is_ok());
    assert!(!assignments.is_value_in_domain(x, 2));
    assert!(!y.contains(&assignments, 5));
}

#[test]
fn inverting_rounds_as_asked() {
    let view = AffineView::new(DomainId::new(0), 2, 1);
    assert_eq!(3, view.invert(6, Rounding::Up));
    assert_eq!(2, view.invert(6, Rounding::Down));
    assert_eq!(-2, view.invert(-4, Rounding::Up));
    assert_eq!(-3, view.invert(-4, Rounding::Down));
    let negative = AffineView::new(DomainId::new(0), -2, 0);
    assert_eq!(-1, negative.invert(3, Rounding::Up));
    assert_eq!(-2, negative.invert(3, Rounding::Down));
    assert_eq!(13, view.map(6));
    assert_eq!(Some(3), view.preimage(7));
    assert_eq!(None, view.preimage(8));
}

#[test]
fn predicates_of_a_view_that_cannot_take_the_value_are_constants() {
    let x = DomainId::new(0);
    let view = AffineView::new(x, 2, 0);
    assert_eq!(Predicate::False, view.equality_predicate(3));
    assert_eq!(Predicate::True, view.disequality_predicate(3));
    assert_eq!(x.equality_predicate(2), view.equality_predicate(4));
    assert_eq!(x.disequality_predicate(2), view.disequality_predicate(4));
}

#[test]
fn a_negative_view_watches_the_opposite_bound() {
    let mut watch_list = WatchListCP::new();
    watch_list.grow();
    let x = DomainId::new(0);
    let watcher = PropagatorVarId { propagator: PropagatorId(3), variable: LocalId(0) };
    let view = x.scaled(-2);
    view.watch_all(&mut watch_list, watcher, DomainEvents::only(IntDomainEvent::LowerBound));
    assert_eq!(vec![watcher], watch_list.watchers[0].upper_bound_watchers);
    assert!(watch_list.watchers[0].lower_bound_watchers.is_empty());
    assert!(watch_list.watchers[0].assign_watchers.is_empty());

    let positive = x.scaled(2);
    positive.watch_all(&mut watch_list, watcher, DomainEvents::only(IntDomainEvent::LowerBound));
    assert_eq!(vec![watcher], watch_list.watchers[0].lower_bound_watchers);

    let both = DomainEvents::bounds();
    assert_eq!(both, view.inner_events(both));
    let hole = DomainEvents::only(IntDomainEvent::Hole);
    assert_eq!(hole, view.inner_events(hole));
}

#[test]
fn a_variable_converts_to_the_view_that_changes_nothing() {
    let x = DomainId::new(3);
    let view: AffineView<DomainId> = x.into();
    assert_eq!((x, 1, 0), (view.inner, view.scale, view.offset));
    assert_eq!(AffineView::new(x, 1, 0), AffineView::from(x));
}

/// The room between the bounds of any variable, read through the trait.
fn room<V: IntVar>(variable: &V, assignments: &AssignmentsInteger) -> i32 {
    variable.upper_bound(assignments) - variable.lower_bound(assignments)
}

#[test]
fn a_domain_and_a_view_are_both_variables() {
    let mut assignments = AssignmentsInteger::new();
    let x = assignments.grow(1, 4);
    let doubled = x.scaled(2);
    let mirrored = doubled.scaled(-1).offset(3);
    assert_eq!(3, room(&x, &assignments));
    assert_eq!(6, room(&doubled, &assignments));
    assert_eq!(6, room(&mirrored, &assignments));
    assert_eq!(-5, IntVar::lower_bound(&mirrored, &assignments));

    assert!(IntVar::set_upper_bound(&doubled, &mut assignments, 7, None).is_ok());
    assert_eq!(3, IntVar::upper_bound(&x, &assignments));
    assert!(IntVar::contains(&mirrored, &assignments, -3));
    assert!(!IntVar::contains(&mirrored, &assignments, -2));
    assert!(IntVar::remove(&x, &mut assignments, 2, None).is_ok());
    assert!(!IntVar::contains(&doubled, &assignments, 4));
    assert_eq!(IntVar::describe_domain(&x, &assignments), IntVar::describe_domain(&mirrored, &assignments));
    assert_eq!(
        IntDomainEvent::UpperBound,
        IntVar::unpack_event(&mirrored, pumpkin_solver::basic_types::domain_events::OpaqueDomainEvent(IntDomainEvent::LowerBound))
    );
}

#[test]
fn a_view_of_a_view_is_a_variable() {
    let mut assignments = AssignmentsInteger::new();
    let x = assignments.grow(1, 4);
    // y = 2x, z = -y + 3
    let y = AffineView::new(x, 2, 0);
    let z = AffineView::new(y, -1, 3);
    assert_eq!(-5, IntVar::lower_bound(&z, &assignments));
    assert_eq!(1, IntVar::upper_bound(&z, &assignments));
    assert_eq!(6, room(&z, &assignments));
    assert!(IntVar::contains(&z, &assignments, -3));
    assert!(!IntVar::contains(&z, &assignments, -2));

    // z >= -2 is y <= 5, which is x <= 2
    assert!(IntVar::set_lower_bound(&z, &mut assignments, -2, None).is_ok());
    assert_eq!(2, IntVar::upper_bound(&x, &assignments));
    assert_eq!(-1, IntVar::lower_bound(&z, &assignments));
    // z <= 0 is y >= 3, which is x >= 2
    assert!(IntVar::set_upper_bound(&z, &mut assignments, 0, None).is_ok());
    assert_eq!(2, IntVar::lower_bound(&x, &assignments));
    assert!(IntVar::remove(&z, &mut assignments, -1, None).is_err());

    // a watch on the lower bound of z is one on the lower bound of x
    let mut watchers = WatchListCP::new();
    watchers.grow();
    let watcher = PropagatorVarId { propagator: PropagatorId(0), variable: LocalId(0) };
    IntVar::watch_all(&z, &mut watchers, watcher, DomainEvents::only(IntDomainEvent::LowerBound));
    assert_eq!(0, watchers.watchers[0].lower_bound_watchers.len());
    assert_eq!(1, watchers.watchers[0].upper_bound_watchers.len());
    assert_eq!(
        IntDomainEvent::LowerBound,
        IntVar::unpack_event(&z, pumpkin_solver::basic_types::domain_events::OpaqueDomainEvent(IntDomainEvent::UpperBound))
    );
}
