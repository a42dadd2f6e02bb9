//! The propagators of the engine, each under its handle.

use vstd::prelude::*;
use crate::basic_types::domain_id::DomainId;
use crate::engine::assignments_view::AssignmentsView;
use crate::engine::propagation::propagator::NUM_PRIORITY_LEVELS;
use crate::engine::propagation::propagator::Propagator;
use crate::engine::propagator_queue::PropagatorId;

verus! {

pub struct PropagatorStore {
    pub propagators: Vec<Propagator>,
    /// The priority of each propagator, under the same index.
    pub priorities: Vec<u32>,
}

impl PropagatorStore {
    /// The invariant: every propagator has its priority on record, and its
    /// constraint is well-formed and over variables of the store `s`.
    pub open spec fn wf(&self, s: AssignmentsView) -> bool {
        &&& self.propagators@.len() == self.priorities@.len()
        &&& self.propagators@.len() <= u32::MAX
        &&& forall|i: int|
            0 <= i < self.propagators@.len() ==> (#[trigger] self.priorities@[i])
                == self.propagators@[i].spec_priority() && self.priorities@[i] < NUM_PRIORITY_LEVELS
        &&& forall|i: int| 0 <= i < self.propagators@.len() ==> (#[trigger] self.propagators@[i]).wf(s)
    }

    /// Whether every constraint of the store holds where every variable `x`
    /// has the value `assignment(x)`.
    pub open spec fn all_hold(&self, assignment: spec_fn(DomainId) -> int) -> bool {
        forall|i: int| 0 <= i < self.propagators@.len() ==> (#[trigger] self.propagators@[i]).holds(assignment)
    }

    pub fn new() -> (r: PropagatorStore)
        ensures
            r.propagators@.len() == 0,
            r.priorities@.len() == 0,
    {
        PropagatorStore { propagators: Vec::new(), priorities: Vec::new() }
    }

    pub fn num_propagators(&self) -> (r: usize)
        ensures
            r == self.propagators@.len(),
    {
        self.propagators.len()
    }

    /// Takes `propagator` in and returns its handle; `None`, with the
    /// propagator dropped, when no handle is left.
    pub fn add_propagator(&mut self, propagator: Propagator) -> (r: Option<PropagatorId>)
        requires
            old(self).propagators@.len() == old(self).priorities@.len(),
        ensures
            forall|s: AssignmentsView|
                old(self).wf(s) && propagator.wf(s) ==> #[trigger] final(self).wf(s),
            r is Some <==> old(self).propagators@.len() < u32::MAX,
            r is Some ==> (r->0).0 == old(self).propagators@.len() && final(self).propagators@ == old(self).propagators@.push(propagator) && final(self).priorities@ == old(self).priorities@.push(
                propagator.spec_priority(),
            ),
            r is None ==> final(self).propagators@ == old(self).propagators@ && final(self).priorities@
                == old(self).priorities@,
    {
        if self.propagators.len() >= u32::MAX as usize {
            return None;
        }
        let id = PropagatorId(self.propagators.len() as u32);
        let priority = propagator.priority();
        self.propagators.push(propagator);
        self.priorities.push(priority);
        Some(id)
    }

    pub fn get(&self, id: PropagatorId) -> (r: &Propagator)
        requires
            (id.0 as int) < self.propagators@.len(),
        ensures
            *r == self.propagators@[id.0 as int],
    {
        &self.propagators[id.0 as usize]
    }
}

} // verus!
