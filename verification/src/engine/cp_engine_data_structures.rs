//! The domain store together with the watch lists and the propagator queue:
//! every change to a domain wakes, within the same call, the propagators
//! that watch for it.

use vstd::prelude::*;
use crate::engine::assignments_laws::lemma_tighten_upper_bound_result;
use crate::engine::assignments_laws::lemma_tighten_lower_bound_result;
use crate::engine::propagation::waking::lemma_changes_wake;
use crate::engine::propagation::waking::wakes;
use crate::basic_types::domain_events::IntDomainEvent;
use crate::basic_types::domain_id::DomainId;
use crate::basic_types::predicate::Predicate;
use crate::engine::assignments_integer::AssignmentsInteger;
use crate::engine::assignments_view::DomainState;
use crate::engine::assignments_view::EmptyDomain;
use crate::engine::assignments_view::ReasonRef;
use crate::engine::propagation::propagator::NUM_PRIORITY_LEVELS;
use crate::engine::propagation::store::PropagatorStore;
use crate::engine::propagator_queue::PropagatorId;
use crate::engine::propagator_queue::PropagatorQueue;
use crate::engine::propagator_queue::all_empty;
use crate::engine::watch_list_cp::WatchListCP;
use crate::engine::watch_list_cp::enqueue_all;

verus! {

pub struct CPEngineDataStructures {
    pub assignments_integer: AssignmentsInteger,
    pub watch_list_cp: WatchListCP,
    pub propagator_queue: PropagatorQueue,
}

/// The queues after the watchers of `x` were told how its domain changed:
/// those of the lower bound first, then those of the upper bound, then those
/// of holes, and last, where the domain came down to one value, those of
/// assignment.
pub open spec fn after_changes(
    queues: Seq<Seq<PropagatorId>>,
    watch_list: &WatchListCP,
    x: DomainId,
    before: DomainState,
    after: DomainState,
    priorities: Seq<u32>,
) -> Seq<Seq<PropagatorId>> {
    let q1 = if after.lower_bound > before.lower_bound {
        enqueue_all(queues, watch_list.watchers_of(x, IntDomainEvent::LowerBound), priorities)
    } else {
        queues
    };
    let q2 = if after.upper_bound < before.upper_bound {
        enqueue_all(q1, watch_list.watchers_of(x, IntDomainEvent::UpperBound), priorities)
    } else {
        q1
    };
    let q3 = if after.holes.len() > before.holes.len() {
        enqueue_all(q2, watch_list.watchers_of(x, IntDomainEvent::Hole), priorities)
    } else {
        q2
    };
    if after.lower_bound == after.upper_bound && before.lower_bound != before.upper_bound {
        enqueue_all(q3, watch_list.watchers_of(x, IntDomainEvent::Assign), priorities)
    } else {
        q3
    }
}

impl Default for CPEngineDataStructures {
    /// An engine without variables, with nothing waiting.
    fn default() -> (r: Self)
        ensures
            r.wf(),
            r.assignments_integer@.num_domains() == 0,
            r.assignments_integer@.trail.len() == 0,
            r.assignments_integer@.decision_level == 0,
            r.watch_list_cp.num_domains() == 0,
            all_empty(r.propagator_queue@),
    {
        CPEngineDataStructures::new()
    }
}

impl CPEngineDataStructures {
    /// The invariant: store and queue are well-formed, there is a queue for
    /// each priority, and every domain has its watch lists.
    pub open spec fn wf(&self) -> bool {
        &&& self.assignments_integer.wf()
        &&& self.propagator_queue.wf()
        &&& self.propagator_queue@.len() == NUM_PRIORITY_LEVELS
        &&& self.watch_list_cp.num_domains() == self.assignments_integer@.num_domains()
    }

    pub fn new() -> (r: CPEngineDataStructures)
        ensures
            r.wf(),
            r.assignments_integer@.num_domains() == 0,
            r.assignments_integer@.trail.len() == 0,
            r.assignments_integer@.decision_level == 0,
            r.watch_list_cp.num_domains() == 0,
            all_empty(r.propagator_queue@),
    {
        CPEngineDataStructures {
            assignments_integer: AssignmentsInteger::new(),
            watch_list_cp: WatchListCP::new(),
            propagator_queue: PropagatorQueue::new(NUM_PRIORITY_LEVELS),
        }
    }

    /// Adds a variable with the domain `lower..=upper`, watched by nobody.
    pub fn new_domain(&mut self, lower: i32, upper: i32) -> (r: DomainId)
        requires
            old(self).wf(),
            lower <= upper,
            old(self).assignments_integer@.num_domains() < u32::MAX,
        ensures
            final(self).wf(),
            r.id == old(self).assignments_integer@.num_domains(),
            final(self).assignments_integer@ == old(self).assignments_integer@.grow(lower, upper),
            final(self).assignments_integer@.lower_bound(r) == lower,
            final(self).assignments_integer@.upper_bound(r) == upper,
            final(self).propagator_queue == old(self).propagator_queue,
            final(self).watch_list_cp.num_domains() == old(self).watch_list_cp.num_domains() + 1,
            forall|x: DomainId, event: IntDomainEvent|
                (x.id as int) < old(self).watch_list_cp.num_domains() ==> #[trigger] final(self).watch_list_cp.watchers_of(
                    x,
                    event,
                ) == old(self).watch_list_cp.watchers_of(x, event),
            forall|event: IntDomainEvent| #[trigger]
                final(self).watch_list_cp.watchers_of(r, event).len() == 0,
    {
        self.watch_list_cp.grow();
        self.assignments_integer.grow(lower, upper)
    }

    /// Backtracks the store to `backtrack_level` and empties the queue.
    pub fn backtrack(&mut self, backtrack_level: u32)
        requires
            old(self).wf(),
        ensures
            final(self).wf(),
            final(self).assignments_integer@ == old(self).assignments_integer@.synchronise(
                backtrack_level,
            ),
            all_empty(final(self).propagator_queue@),
            final(self).watch_list_cp == old(self).watch_list_cp,
    {
        self.assignments_integer.synchronise(backtrack_level);
        self.propagator_queue.clear();
    }

    /// Tells the watchers of `x` how its domain changed since it had the
    /// bounds and the number of holes given.
    fn notify_changes(
        &mut self,
        x: DomainId,
        old_lower: i32,
        old_upper: i32,
        old_holes: usize,
        cp_propagators: &PropagatorStore,
        Ghost(before): Ghost<DomainState>,
    )
        requires
            old(self).wf(),
            old(self).assignments_integer@.is_valid_domain(x),
            before.lower_bound == old_lower,
            before.upper_bound == old_upper,
            before.holes.len() == old_holes,
        ensures
            final(self).wf(),
            final(self).assignments_integer == old(self).assignments_integer,
            final(self).watch_list_cp == old(self).watch_list_cp,
            final(self).propagator_queue@ == after_changes(
                old(self).propagator_queue@,
                &old(self).watch_list_cp,
                x,
                before,
                old(self).assignments_integer@.state(x),
                cp_propagators.priorities@,
            ),
    {
        let new_lower = self.assignments_integer.get_lower_bound(x);
        let new_upper = self.assignments_integer.get_upper_bound(x);
        let new_holes = self.assignments_integer.get_num_holes(x);
        if new_lower > old_lower {
            self.watch_list_cp.notify_subscribed_propagators(
                x,
                IntDomainEvent::LowerBound,
                &cp_propagators.priorities,
                &mut self.propagator_queue,
            );
        }
        if new_upper < old_upper {
            self.watch_list_cp.notify_subscribed_propagators(
                x,
                IntDomainEvent::UpperBound,
                &cp_propagators.priorities,
                &mut self.propagator_queue,
            );
        }
        if new_holes > old_holes {
            self.watch_list_cp.notify_subscribed_propagators(
                x,
                IntDomainEvent::Hole,
                &cp_propagators.priorities,
                &mut self.propagator_queue,
            );
        }
        if new_lower == new_upper && old_lower != old_upper {
            self.watch_list_cp.notify_subscribed_propagators(
                x,
                IntDomainEvent::Assign,
                &cp_propagators.priorities,
                &mut self.propagator_queue,
            );
        }
    }

    /// Tightens the lower bound of a variable and wakes its watchers.
    pub fn tighten_lower_bound(
        &mut self,
        integer_variable: DomainId,
        new_lower_bound: i32,
        propagator_reason: Option<ReasonRef>,
        cp_propagators: &PropagatorStore,
    ) -> (r: Result<(), EmptyDomain>)
        requires
            old(self).wf(),
            old(self).assignments_integer@.is_valid_domain(integer_variable),
        ensures
            final(self).wf(),
            (final(self).assignments_integer@, r is Ok) == old(self).assignments_integer@.tighten_lower_bound(
                integer_variable,
                new_lower_bound,
                propagator_reason,
            ),
            final(self).watch_list_cp == old(self).watch_list_cp,
            final(self).propagator_queue@ == after_changes(
                old(self).propagator_queue@,
                &old(self).watch_list_cp,
                integer_variable,
                old(self).assignments_integer@.state(integer_variable),
                final(self).assignments_integer@.state(integer_variable),
                cp_propagators.priorities@,
            ),
            wakes(
                &old(self).watch_list_cp,
                cp_propagators.priorities@,
                old(self).assignments_integer@,
                old(self).propagator_queue@,
                final(self).assignments_integer@,
                final(self).propagator_queue@,
            ),
    {
        proof {
            self.assignments_integer.lemma_view_wf();
            let s = self.assignments_integer@;
            if new_lower_bound <= self.assignments_integer@.upper_bound(integer_variable) {
                lemma_tighten_lower_bound_result(s, integer_variable, new_lower_bound, propagator_reason);
            }
            let t = s.tighten_lower_bound(integer_variable, new_lower_bound, propagator_reason).0;
            assert forall|y: DomainId|
                s.is_valid_domain(y) && y != integer_variable implies #[trigger] t.lower_bound(y)
                == s.lower_bound(y) && t.upper_bound(y) == s.upper_bound(y) by {
                if t != s {
                    assert(t.state(y) == s.state(y));
                }
            }
            lemma_changes_wake(
                &self.watch_list_cp,
                cp_propagators.priorities@,
                s,
                self.propagator_queue@,
                integer_variable,
                t,
            );
        }
        let old_lower = self.assignments_integer.get_lower_bound(integer_variable);
        let old_upper = self.assignments_integer.get_upper_bound(integer_variable);
        let old_holes = self.assignments_integer.get_num_holes(integer_variable);
        let ghost before = self.assignments_integer@.state(integer_variable);
        let outcome = self.assignments_integer.tighten_lower_bound(
            integer_variable,
            new_lower_bound,
            propagator_reason,
        );
        self.notify_changes(
            integer_variable,
            old_lower,
            old_upper,
            old_holes,
            cp_propagators,
            Ghost(before),
        );
        outcome
    }

    /// Tightens the upper bound of a variable and wakes its watchers.
    pub fn tighten_upper_bound(
        &mut self,
        integer_variable: DomainId,
        new_upper_bound: i32,
        propagator_reason: Option<ReasonRef>,
        cp_propagators: &PropagatorStore,
    ) -> (r: Result<(), EmptyDomain>)
        requires
            old(self).wf(),
            old(self).assignments_integer@.is_valid_domain(integer_variable),
        ensures
            final(self).wf(),
            (final(self).assignments_integer@, r is Ok) == old(self).assignments_integer@.tighten_upper_bound(
                integer_variable,
                new_upper_bound,
                propagator_reason,
            ),
            final(self).watch_list_cp == old(self).watch_list_cp,
            final(self).propagator_queue@ == after_changes(
                old(self).propagator_queue@,
                &old(self).watch_list_cp,
                integer_variable,
                old(self).assignments_integer@.state(integer_variable),
                final(self).assignments_integer@.state(integer_variable),
                cp_propagators.priorities@,
            ),
            wakes(
                &old(self).watch_list_cp,
                cp_propagators.priorities@,
                old(self).assignments_integer@,
                old(self).propagator_queue@,
                final(self).assignments_integer@,
                final(self).propagator_queue@,
            ),
    {
        proof {
            self.assignments_integer.lemma_view_wf();
            let s = self.assignments_integer@;
            if new_upper_bound >= self.assignments_integer@.lower_bound(integer_variable) {
                lemma_tighten_upper_bound_result(s, integer_variable, new_upper_bound, propagator_reason);
            }
            let t = s.tighten_upper_bound(integer_variable, new_upper_bound, propagator_reason).0;
            assert forall|y: DomainId|
                s.is_valid_domain(y) && y != integer_variable implies #[trigger] t.lower_bound(y)
                == s.lower_bound(y) && t.upper_bound(y) == s.upper_bound(y) by {
                if t != s {
                    assert(t.state(y) == s.state(y));
                }
            }
            lemma_changes_wake(
                &self.watch_list_cp,
                cp_propagators.priorities@,
                s,
                self.propagator_queue@,
                integer_variable,
                t,
            );
        }
        let old_lower = self.assignments_integer.get_lower_bound(integer_variable);
        let old_upper = self.assignments_integer.get_upper_bound(integer_variable);
        let old_holes = self.assignments_integer.get_num_holes(integer_variable);
        let ghost before = self.assignments_integer@.state(integer_variable);
        let outcome = self.assignments_integer.tighten_upper_bound(
            integer_variable,
            new_upper_bound,
            propagator_reason,
        );
        self.notify_changes(
            integer_variable,
            old_lower,
            old_upper,
            old_holes,
            cp_propagators,
            Ghost(before),
        );
        outcome
    }

    /// Fixes a variable to a value and wakes its watchers.
    pub fn make_assignment(
        &mut self,
        integer_variable: DomainId,
        assigned_value: i32,
        propagator_reason: Option<ReasonRef>,
        cp_propagators: &PropagatorStore,
    ) -> (r: Result<(), EmptyDomain>)
        requires
            old(self).wf(),
            old(self).assignments_integer@.is_valid_domain(integer_variable),
        ensures
            final(self).wf(),
            (final(self).assignments_integer@, r is Ok) == old(self).assignments_integer@.make_assignment(integer_variable, assigned_value, propagator_reason),
            final(self).watch_list_cp == old(self).watch_list_cp,
            final(self).propagator_queue@ == after_changes(
                old(self).propagator_queue@,
                &old(self).watch_list_cp,
                integer_variable,
                old(self).assignments_integer@.state(integer_variable),
                final(self).assignments_integer@.state(integer_variable),
                cp_propagators.priorities@,
            ),
    {
        let old_lower = self.assignments_integer.get_lower_bound(integer_variable);
        let old_upper = self.assignments_integer.get_upper_bound(integer_variable);
        let old_holes = self.assignments_integer.get_num_holes(integer_variable);
        let ghost before = self.assignments_integer@.state(integer_variable);
        let outcome = self.assignments_integer.make_assignment(
            integer_variable,
            assigned_value,
            propagator_reason,
        );
        self.notify_changes(
            integer_variable,
            old_lower,
            old_upper,
            old_holes,
            cp_propagators,
            Ghost(before),
        );
        outcome
    }

    /// Removes a value from the domain of a variable and wakes its watchers.
    pub fn remove_value_from_domain(
        &mut self,
        integer_variable: DomainId,
        removed_value_from_domain: i32,
        propagator_reason: Option<ReasonRef>,
        cp_propagators: &PropagatorStore,
    ) -> (r: Result<(), EmptyDomain>)
        requires
            old(self).wf(),
            old(self).assignments_integer@.is_valid_domain(integer_variable),
        ensures
            final(self).wf(),
            (final(self).assignments_integer@, r is Ok) == old(self).assignments_integer@.remove_value(
                integer_variable,
                removed_value_from_domain,
                propagator_reason,
            ),
            final(self).watch_list_cp == old(self).watch_list_cp,
            final(self).propagator_queue@ == after_changes(
                old(self).propagator_queue@,
                &old(self).watch_list_cp,
                integer_variable,
                old(self).assignments_integer@.state(integer_variable),
                final(self).assignments_integer@.state(integer_variable),
                cp_propagators.priorities@,
            ),
    {
        let old_lower = self.assignments_integer.get_lower_bound(integer_variable);
        let old_upper = self.assignments_integer.get_upper_bound(integer_variable);
        let old_holes = self.assignments_integer.get_num_holes(integer_variable);
        let ghost before = self.assignments_integer@.state(integer_variable);
        let outcome = self.assignments_integer.remove_value_from_domain(
            integer_variable,
            removed_value_from_domain,
            propagator_reason,
        );
        self.notify_changes(
            integer_variable,
            old_lower,
            old_upper,
            old_holes,
            cp_propagators,
            Ghost(before),
        );
        outcome
    }

    /// Makes `predicate` hold: nothing where it holds already, else the
    /// operation on its variable that makes it hold. The constant `False`
    /// cannot be made to hold.
    pub fn apply_predicate(
        &mut self,
        predicate: &Predicate,
        propagator_reason: Option<ReasonRef>,
        cp_propagators: &PropagatorStore,
    ) -> (r: Result<(), EmptyDomain>)
        requires
            old(self).wf(),
            predicate.domain() is Some ==> old(self).assignments_integer@.is_valid_domain(
                predicate.domain()->0,
            ),
        ensures
            final(self).wf(),
            (final(self).assignments_integer@, r is Ok) == old(self).assignments_integer@.apply_predicate(*predicate, propagator_reason),
            final(self).watch_list_cp == old(self).watch_list_cp,
            predicate.domain() is Some ==> final(self).propagator_queue@ == after_changes(
                old(self).propagator_queue@,
                &old(self).watch_list_cp,
                predicate.domain()->0,
                old(self).assignments_integer@.state(predicate.domain()->0),
                final(self).assignments_integer@.state(predicate.domain()->0),
                cp_propagators.priorities@,
            ),
            predicate.domain() is None ==> final(self).propagator_queue@ == old(self).propagator_queue@,
    {
        if self.does_predicate_hold(predicate) {
            return Ok(());
        }
        match *predicate {
            Predicate::LowerBound { domain_id, lower_bound } => self.tighten_lower_bound(
                domain_id,
                lower_bound,
                propagator_reason,
                cp_propagators,
            ),
            Predicate::UpperBound { domain_id, upper_bound } => self.tighten_upper_bound(
                domain_id,
                upper_bound,
                propagator_reason,
                cp_propagators,
            ),
            Predicate::NotEqual { domain_id, not_equal_constant } => self.remove_value_from_domain(
                domain_id,
                not_equal_constant,
                propagator_reason,
                cp_propagators,
            ),
            Predicate::Equal { domain_id, equality_constant } => self.make_assignment(
                domain_id,
                equality_constant,
                propagator_reason,
                cp_propagators,
            ),
            Predicate::True => Ok(()),
            Predicate::False => Err(EmptyDomain),
        }
    }

    pub fn does_predicate_hold(&self, predicate: &Predicate) -> (r: bool)
        requires
            self.wf(),
            predicate.domain() is Some ==> self.assignments_integer@.is_valid_domain(
                predicate.domain()->0,
            ),
        ensures
            r == self.assignments_integer@.predicate_holds(*predicate),
    {
        self.assignments_integer.does_predicate_hold(predicate)
    }
}

} // verus!
