//! What a variable can do, whether it is a domain of the store or a view
//! of one: its bounds can be read and written, it can be watched, and it
//! says what an event on its domain means for it.

use vstd::prelude::*;
use crate::basic_types::variables::Rounding;
use crate::basic_types::domain_events::DomainEvents;
use crate::basic_types::domain_events::IntDomainEvent;
use crate::basic_types::domain_events::OpaqueDomainEvent;
use crate::basic_types::domain_id::DomainId;
use crate::basic_types::predicate::Predicate;
use crate::basic_types::variables::AffineView;
use crate::engine::assignments_integer::AssignmentsInteger;
use crate::engine::assignments_view::AssignmentsView;
use crate::engine::assignments_view::EmptyDomain;
use crate::engine::assignments_view::ReasonRef;
use crate::engine::watch_list_cp::PropagatorVarId;
use crate::engine::watch_list_cp::WatchListCP;

verus! {

pub trait IntVar: Copy {
    /// The domain of the store behind the variable.
    spec fn domain(&self) -> DomainId;

    /// The variable is one whose values can be traced back to its domain:
    /// a view is, unless its scale is zero.
    spec fn is_proper(&self) -> bool;

    /// The bounds can be read: the domain is one of the store, and the
    /// bounds of the variable, and of what it is a view of, are `i32`s.
    spec fn readable(&self, s: AssignmentsView) -> bool;

    spec fn lower_bound_in(&self, s: AssignmentsView) -> int;

    spec fn upper_bound_in(&self, s: AssignmentsView) -> int;

    spec fn contains_in(&self, s: AssignmentsView, value: int) -> bool;

    /// The store after `remove`, and whether the removal succeeded.
    spec fn after_remove(&self, s: AssignmentsView, value: int, reason: Option<ReasonRef>) -> (
        AssignmentsView,
        bool,
    );

    /// The store after `set_lower_bound`, and whether that succeeded.
    spec fn after_set_lower_bound(&self, s: AssignmentsView, value: int, reason: Option<ReasonRef>) -> (
        AssignmentsView,
        bool,
    );

    /// The store after `set_upper_bound`, and whether that succeeded.
    spec fn after_set_upper_bound(&self, s: AssignmentsView, value: int, reason: Option<ReasonRef>) -> (
        AssignmentsView,
        bool,
    );

    /// The events on the domain that amount to `events` on the variable.
    spec fn watched_events(&self, events: DomainEvents) -> DomainEvents;

    /// What an event on the domain means for the variable.
    spec fn seen_event(&self, event: IntDomainEvent) -> IntDomainEvent;

    fn lower_bound(&self, assignment: &AssignmentsInteger) -> (r: i32)
        requires
            assignment.wf(),
            self.readable(assignment@),
        ensures
            r == self.lower_bound_in(assignment@),
    ;

    fn upper_bound(&self, assignment: &AssignmentsInteger) -> (r: i32)
        requires
            assignment.wf(),
            self.readable(assignment@),
        ensures
            r == self.upper_bound_in(assignment@),
    ;

    fn contains(&self, assignment: &AssignmentsInteger, value: i32) -> (r: bool)
        requires
            assignment.wf(),
            assignment@.is_valid_domain(self.domain()),
            self.is_proper(),
        ensures
            r == self.contains_in(assignment@, value as int),
    ;

    /// The domain behind the variable in predicates: its bounds and the
    /// values that are missing between them. A view does not change the
    /// description.
    fn describe_domain(&self, assignment: &AssignmentsInteger) -> (r: Vec<Predicate>)
        requires
            assignment.wf(),
            assignment@.is_valid_domain(self.domain()),
        ensures
            r@ == assignment@.domain_description(self.domain()),
    ;

    fn remove(&self, assignment: &mut AssignmentsInteger, value: i32, reason: Option<ReasonRef>) -> (r:
        Result<(), EmptyDomain>)
        requires
            old(assignment).wf(),
            old(assignment)@.is_valid_domain(self.domain()),
            self.is_proper(),
        ensures
            final(assignment).wf(),
            (final(assignment)@, r is Ok) == self.after_remove(old(assignment)@, value as int, reason),
    ;

    fn set_lower_bound(&self, assignment: &mut AssignmentsInteger, value: i32, reason: Option<ReasonRef>) -> (r:
        Result<(), EmptyDomain>)
        requires
            old(assignment).wf(),
            old(assignment)@.is_valid_domain(self.domain()),
            self.is_proper(),
        ensures
            final(assignment).wf(),
            (final(assignment)@, r is Ok) == self.after_set_lower_bound(
                old(assignment)@,
                value as int,
                reason,
            ),
    ;

    fn set_upper_bound(&self, assignment: &mut AssignmentsInteger, value: i32, reason: Option<ReasonRef>) -> (r:
        Result<(), EmptyDomain>)
        requires
            old(assignment).wf(),
            old(assignment)@.is_valid_domain(self.domain()),
            self.is_proper(),
        ensures
            final(assignment).wf(),
            (final(assignment)@, r is Ok) == self.after_set_upper_bound(
                old(assignment)@,
                value as int,
                reason,
            ),
    ;

    /// Registers `propagator_var` on the domain behind the variable, for
    /// the events there that amount to `events` on the variable.
    fn watch_all(&self, watchers: &mut WatchListCP, propagator_var: PropagatorVarId, events: DomainEvents)
        requires
            (self.domain().id as int) < old(watchers).num_domains(),
        ensures
            final(watchers).num_domains() == old(watchers).num_domains(),
            forall|y: DomainId, event: IntDomainEvent|
                (y.id as int) < old(watchers).num_domains() ==> #[trigger] final(watchers).watchers_of(
                    y,
                    event,
                ) == if y == self.domain() && self.watched_events(events).has(event) {
                    old(watchers).watchers_of(y, event).push(propagator_var)
                } else {
                    old(watchers).watchers_of(y, event)
                },
    ;

    fn unpack_event(&self, event: OpaqueDomainEvent) -> (r: IntDomainEvent)
        ensures
            r == self.seen_event(event.0),
    ;
}

impl IntVar for DomainId {
    open spec fn domain(&self) -> DomainId {
        *self
    }

    open spec fn is_proper(&self) -> bool {
        true
    }

    open spec fn readable(&self, s: AssignmentsView) -> bool {
        s.is_valid_domain(*self)
    }

    open spec fn lower_bound_in(&self, s: AssignmentsView) -> int {
        s.lower_bound(*self)
    }

    open spec fn upper_bound_in(&self, s: AssignmentsView) -> int {
        s.upper_bound(*self)
    }

    open spec fn contains_in(&self, s: AssignmentsView, value: int) -> bool {
        s.contains(*self, value)
    }

    open spec fn after_remove(&self, s: AssignmentsView, value: int, reason: Option<ReasonRef>) -> (
        AssignmentsView,
        bool,
    ) {
        s.remove_value(*self, value as i32, reason)
    }

    open spec fn after_set_lower_bound(&self, s: AssignmentsView, value: int, reason: Option<ReasonRef>) -> (
        AssignmentsView,
        bool,
    ) {
        s.tighten_lower_bound(*self, value as i32, reason)
    }

    open spec fn after_set_upper_bound(&self, s: AssignmentsView, value: int, reason: Option<ReasonRef>) -> (
        AssignmentsView,
        bool,
    ) {
        s.tighten_upper_bound(*self, value as i32, reason)
    }

    open spec fn watched_events(&self, events: DomainEvents) -> DomainEvents {
        events
    }

    open spec fn seen_event(&self, event: IntDomainEvent) -> IntDomainEvent {
        event
    }

    fn lower_bound(&self, assignment: &AssignmentsInteger) -> (r: i32) {
        DomainId::lower_bound(self, assignment)
    }

    fn upper_bound(&self, assignment: &AssignmentsInteger) -> (r: i32) {
        DomainId::upper_bound(self, assignment)
    }

    fn contains(&self, assignment: &AssignmentsInteger, value: i32) -> (r: bool) {
        DomainId::contains(self, assignment, value)
    }

    fn describe_domain(&self, assignment: &AssignmentsInteger) -> (r: Vec<Predicate>) {
        DomainId::describe_domain(self, assignment)
    }

    fn remove(&self, assignment: &mut AssignmentsInteger, value: i32, reason: Option<ReasonRef>) -> (r:
        Result<(), EmptyDomain>) {
        DomainId::remove(self, assignment, value, reason)
    }

    fn set_lower_bound(&self, assignment: &mut AssignmentsInteger, value: i32, reason: Option<ReasonRef>) -> (r:
        Result<(), EmptyDomain>) {
        DomainId::set_lower_bound(self, assignment, value, reason)
    }

    fn set_upper_bound(&self, assignment: &mut AssignmentsInteger, value: i32, reason: Option<ReasonRef>) -> (r:
        Result<(), EmptyDomain>) {
        DomainId::set_upper_bound(self, assignment, value, reason)
    }

    fn watch_all(&self, watchers: &mut WatchListCP, propagator_var: PropagatorVarId, events: DomainEvents) {
        DomainId::watch_all(self, watchers, propagator_var, events)
    }

    fn unpack_event(&self, event: OpaqueDomainEvent) -> (r: IntDomainEvent) {
        DomainId::unpack_event(self, event)
    }
}

/// Tightening the lower bound of `inner` to a value that may lie outside
/// `i32`: beyond the greatest `i32` nothing is left, below the least
/// nothing changes.
pub open spec fn after_wide_lower_bound<Inner: IntVar>(
    inner: Inner,
    s: AssignmentsView,
    value: int,
    reason: Option<ReasonRef>,
) -> (AssignmentsView, bool) {
    if value > i32::MAX {
        (s, false)
    } else if value < i32::MIN {
        (s, true)
    } else {
        inner.after_set_lower_bound(s, value, reason)
    }
}

/// Tightening the upper bound of `inner` to a value that may lie outside
/// `i32`: below the least `i32` nothing is left, beyond the greatest
/// nothing changes.
pub open spec fn after_wide_upper_bound<Inner: IntVar>(
    inner: Inner,
    s: AssignmentsView,
    value: int,
    reason: Option<ReasonRef>,
) -> (AssignmentsView, bool) {
    if value < i32::MIN {
        (s, false)
    } else if value > i32::MAX {
        (s, true)
    } else {
        inner.after_set_upper_bound(s, value, reason)
    }
}

fn set_wide_lower_bound<Inner: IntVar>(
    inner: &Inner,
    assignment: &mut AssignmentsInteger,
    value: i64,
    reason: Option<ReasonRef>,
) -> (r: Result<(), EmptyDomain>)
    requires
        old(assignment).wf(),
        old(assignment)@.is_valid_domain(inner.domain()),
        inner.is_proper(),
    ensures
        final(assignment).wf(),
        (final(assignment)@, r is Ok) == after_wide_lower_bound(*inner, old(assignment)@, value as int, reason),
{
    if value > i32::MAX as i64 {
        Err(EmptyDomain)
    } else if value < i32::MIN as i64 {
        Ok(())
    } else {
        inner.set_lower_bound(assignment, value as i32, reason)
    }
}

fn set_wide_upper_bound<Inner: IntVar>(
    inner: &Inner,
    assignment: &mut AssignmentsInteger,
    value: i64,
    reason: Option<ReasonRef>,
) -> (r: Result<(), EmptyDomain>)
    requires
        old(assignment).wf(),
        old(assignment)@.is_valid_domain(inner.domain()),
        inner.is_proper(),
    ensures
        final(assignment).wf(),
        (final(assignment)@, r is Ok) == after_wide_upper_bound(*inner, old(assignment)@, value as int, reason),
{
    if value < i32::MIN as i64 {
        Err(EmptyDomain)
    } else if value > i32::MAX as i64 {
        Ok(())
    } else {
        inner.set_upper_bound(assignment, value as i32, reason)
    }
}

/// A view of a variable is a variable: of a domain, and of a view as well.
impl<Inner: IntVar> IntVar for AffineView<Inner> {
    open spec fn domain(&self) -> DomainId {
        self.inner.domain()
    }

    open spec fn is_proper(&self) -> bool {
        self.scale != 0 && self.inner.is_proper()
    }

    open spec fn readable(&self, s: AssignmentsView) -> bool {
        &&& self.inner.readable(s)
        &&& i32::MIN <= self.spec_map(self.inner.lower_bound_in(s)) <= i32::MAX
        &&& i32::MIN <= self.spec_map(self.inner.upper_bound_in(s)) <= i32::MAX
    }

    open spec fn lower_bound_in(&self, s: AssignmentsView) -> int {
        if self.scale < 0 {
            self.spec_map(self.inner.upper_bound_in(s))
        } else {
            self.spec_map(self.inner.lower_bound_in(s))
        }
    }

    open spec fn upper_bound_in(&self, s: AssignmentsView) -> int {
        if self.scale < 0 {
            self.spec_map(self.inner.lower_bound_in(s))
        } else {
            self.spec_map(self.inner.upper_bound_in(s))
        }
    }

    open spec fn contains_in(&self, s: AssignmentsView, value: int) -> bool {
        &&& self.spec_preimage(value) is Some
        &&& i32::MIN <= self.spec_preimage(value)->0 <= i32::MAX
        &&& self.inner.contains_in(s, self.spec_preimage(value)->0)
    }

    open spec fn after_remove(&self, s: AssignmentsView, value: int, reason: Option<ReasonRef>) -> (
        AssignmentsView,
        bool,
    ) {
        match self.spec_preimage(value) {
            Some(inner_value) => if i32::MIN <= inner_value <= i32::MAX {
                self.inner.after_remove(s, inner_value, reason)
            } else {
                (s, true)
            },
            None => (s, true),
        }
    }

    open spec fn after_set_lower_bound(&self, s: AssignmentsView, value: int, reason: Option<ReasonRef>) -> (
        AssignmentsView,
        bool,
    ) {
        let inverted = self.spec_invert(value, Rounding::Up);
        if self.scale >= 0 {
            after_wide_lower_bound(self.inner, s, inverted, reason)
        } else {
            after_wide_upper_bound(self.inner, s, inverted, reason)
        }
    }

    open spec fn after_set_upper_bound(&self, s: AssignmentsView, value: int, reason: Option<ReasonRef>) -> (
        AssignmentsView,
        bool,
    ) {
        let inverted = self.spec_invert(value, Rounding::Down);
        if self.scale >= 0 {
            after_wide_upper_bound(self.inner, s, inverted, reason)
        } else {
            after_wide_lower_bound(self.inner, s, inverted, reason)
        }
    }

    open spec fn watched_events(&self, events: DomainEvents) -> DomainEvents {
        self.inner.watched_events(self.spec_inner_events(events))
    }

    open spec fn seen_event(&self, event: IntDomainEvent) -> IntDomainEvent {
        self.spec_unpack_event(self.inner.seen_event(event))
    }

    fn lower_bound(&self, assignment: &AssignmentsInteger) -> (r: i32) {
        if self.scale < 0 {
            self.map(self.inner.upper_bound(assignment)) as i32
        } else {
            self.map(self.inner.lower_bound(assignment)) as i32
        }
    }

    fn upper_bound(&self, assignment: &AssignmentsInteger) -> (r: i32) {
        if self.scale < 0 {
            self.map(self.inner.lower_bound(assignment)) as i32
        } else {
            self.map(self.inner.upper_bound(assignment)) as i32
        }
    }

    fn contains(&self, assignment: &AssignmentsInteger, value: i32) -> (r: bool) {
        match self.preimage(value) {
            Some(inner_value) => self.inner.contains(assignment, inner_value),
            None => false,
        }
    }

    fn describe_domain(&self, assignment: &AssignmentsInteger) -> (r: Vec<Predicate>) {
        self.inner.describe_domain(assignment)
    }

    fn remove(&self, assignment: &mut AssignmentsInteger, value: i32, reason: Option<ReasonRef>) -> (r:
        Result<(), EmptyDomain>) {
        match self.preimage(value) {
            Some(inner_value) => self.inner.remove(assignment, inner_value, reason),
            None => Ok(()),
        }
    }

    fn set_lower_bound(&self, assignment: &mut AssignmentsInteger, value: i32, reason: Option<ReasonRef>) -> (r:
        Result<(), EmptyDomain>) {
        let inverted = self.invert(value, Rounding::Up);
        if self.scale >= 0 {
            set_wide_lower_bound(&self.inner, assignment, inverted, reason)
        } else {
            set_wide_upper_bound(&self.inner, assignment, inverted, reason)
        }
    }

    fn set_upper_bound(&self, assignment: &mut AssignmentsInteger, value: i32, reason: Option<ReasonRef>) -> (r:
        Result<(), EmptyDomain>) {
        let inverted = self.invert(value, Rounding::Down);
        if self.scale >= 0 {
            set_wide_upper_bound(&self.inner, assignment, inverted, reason)
        } else {
            set_wide_lower_bound(&self.inner, assignment, inverted, reason)
        }
    }

    fn watch_all(&self, watchers: &mut WatchListCP, propagator_var: PropagatorVarId, events: DomainEvents) {
        let inner_events = self.inner_events(events);
        self.inner.watch_all(watchers, propagator_var, inner_events)
    }

    fn unpack_event(&self, event: OpaqueDomainEvent) -> (r: IntDomainEvent) {
        let seen = self.inner.unpack_event(event);
        if self.scale < 0 {
            match seen {
                IntDomainEvent::LowerBound => IntDomainEvent::UpperBound,
                IntDomainEvent::UpperBound => IntDomainEvent::LowerBound,
                other => other,
            }
        } else {
            seen
        }
    }
}

} // verus!
