//! A propagator of any kind.

use vstd::prelude::*;
use crate::propagators::linear_inequality_literal_propagator::registrations;
use crate::propagators::linear_less_or_equal::watches;
use crate::engine::watch_list_cp::WatchListCP;
use crate::engine::watch_list_cp::PropagatorVarId;
use crate::engine::watch_list_cp::LocalId;
use crate::basic_types::domain_events::IntDomainEvent;
use crate::engine::propagation::waking::wakes;
use crate::basic_types::domain_id::DomainId;
use crate::basic_types::linear_less_or_equal::LinearLessOrEqual;
use crate::basic_types::stored_conflict_info::StoredConflictInfo;
use crate::engine::assignments_view::AssignmentsView;
use crate::engine::cp_engine_data_structures::CPEngineDataStructures;
use crate::engine::domain_width::extends;
use crate::engine::domain_width::same_or_narrower;
use crate::engine::propagation::store::PropagatorStore;
use crate::engine::propagator_queue::PropagatorId;
use crate::engine::reason_store::ReasonStore;
use crate::engine::solutions::within;
use crate::engine::assignments_view::ReasonRef;
use crate::propagators::linear_inequality_literal_propagator::LinearInequalityLiteralPropagator;
use crate::propagators::linear_less_or_equal::LinearLessOrEqualPropagator;
use crate::propagators::linear_less_or_equal::at_fixpoint;
use crate::propagators::linear_less_or_equal::is_violated;

verus! {

/// The number of priorities: a propagator's priority is below it.
pub const NUM_PRIORITY_LEVELS: u32 = 5;

/// The kinds of propagator the engine knows.
#[derive(Debug)]
pub enum Propagator {
    LinearLessOrEqual(LinearLessOrEqualPropagator),
    LinearInequalityLiteral(LinearInequalityLiteralPropagator),
}

impl Propagator {
    /// The inequality by which the propagator explains what it infers, if
    /// it explains that way.
    pub open spec fn explanation(&self) -> Option<LinearLessOrEqual> {
        match self {
            Propagator::LinearLessOrEqual(propagator) => Some(propagator.inequality),
            Propagator::LinearInequalityLiteral(_) => None,
        }
    }

    pub open spec fn spec_priority(&self) -> u32 {
        match self {
            Propagator::LinearLessOrEqual(_) => 2,
            Propagator::LinearInequalityLiteral(_) => 0,
        }
    }

    /// The propagator's constraint is well-formed and over variables of the
    /// store.
    pub open spec fn wf(&self, s: AssignmentsView) -> bool {
        match self {
            Propagator::LinearLessOrEqual(propagator) => propagator.inequality.wf()
                && propagator.inequality.valid_for(s),
            Propagator::LinearInequalityLiteral(propagator) => propagator.wf(s),
        }
    }

    /// Whether the propagator's constraint holds where every variable `x`
    /// has the value `assignment(x)`.
    pub open spec fn holds(&self, assignment: spec_fn(DomainId) -> int) -> bool {
        match self {
            Propagator::LinearLessOrEqual(propagator) => propagator.inequality.holds(assignment),
            Propagator::LinearInequalityLiteral(propagator) => propagator.holds(assignment),
        }
    }

    /// Registers the propagator, known to the engine as `id`, for what it
    /// watches: one for a linear inequality for the events that raise the
    /// least value of its left-hand side, one that ties an inequality to a
    /// literal for every event on every one of its variables.
    pub fn initialise_at_root(&self, id: PropagatorId, watchers: &mut WatchListCP)
        requires
            match self {
                Propagator::LinearLessOrEqual(linear) => {
                    &&& linear.inequality.wf()
                    &&& forall|i: int|
                        0 <= i < linear.inequality.lhs@.len() ==> ((
                        #[trigger] linear.inequality.lhs@[i]).0.id as int) < old(watchers).num_domains()
                    &&& linear.inequality.lhs@.len() <= u32::MAX
                },
                Propagator::LinearInequalityLiteral(tied) => {
                    &&& forall|i: int|
                        0 <= i < tied.linear_inequality.lhs@.len() ==> ((
                        #[trigger] tied.linear_inequality.lhs@[i]).0.id as int) < old(watchers).num_domains()
                    &&& (tied.literal.id as int) < old(watchers).num_domains()
                    &&& tied.linear_inequality.lhs@.len() < u32::MAX
                },
            },
        ensures
            final(watchers).num_domains() == old(watchers).num_domains(),
            self matches Propagator::LinearLessOrEqual(linear) ==> {
                &&& forall|y: DomainId, event: IntDomainEvent|
                    (y.id as int) < old(watchers).num_domains() && (forall|i: int|
                        !watches(linear.inequality.lhs@, i, y, event)) ==> #[trigger] final(watchers).watchers_of(
                        y,
                        event,
                    ) == old(watchers).watchers_of(y, event)
                &&& forall|y: DomainId, event: IntDomainEvent, i: int|
                    (y.id as int) < old(watchers).num_domains() && #[trigger] watches(
                        linear.inequality.lhs@,
                        i,
                        y,
                        event,
                    ) ==> #[trigger] final(watchers).watchers_of(y, event) == old(watchers).watchers_of(
                        y,
                        event,
                    ).push(PropagatorVarId { propagator: id, variable: LocalId(i as u32) })
            },
            self matches Propagator::LinearInequalityLiteral(tied) ==> forall|
                y: DomainId,
                event: IntDomainEvent,
            |
                (y.id as int) < old(watchers).num_domains() ==> #[trigger] final(watchers).watchers_of(
                    y,
                    event,
                ) == old(watchers).watchers_of(y, event) + registrations(
                    tied.variables(),
                    id,
                    y,
                    tied.variables().len(),
                ),
    {
        match self {
            Propagator::LinearLessOrEqual(linear) => linear.initialise_at_root(id, watchers),
            Propagator::LinearInequalityLiteral(tied) => tied.initialise_at_root(id, watchers),
        }
    }

    /// Runs the propagator, known to the engine as `id`. Whatever its kind,
    /// it only narrows domains, wakes nobody where it changes nothing,
    /// removes no value that an assignment takes of which its constraint
    /// holds, and fails only where its constraint holds of no assignment
    /// within the domains.
    /// One for a linear inequality fails, changing nothing, exactly where
    /// the inequality cannot hold, and otherwise narrows the domains until
    /// the inequality removes nothing more. One that ties an inequality to a
    /// literal does what `spec_propagate` says.
    pub fn propagate(
        &self,
        id: PropagatorId,
        engine: &mut CPEngineDataStructures,
        cp_propagators: &PropagatorStore,
        reason_store: &mut ReasonStore,
    ) -> (r: Result<(), StoredConflictInfo>)
        requires
            old(engine).wf(),
            self.wf(old(engine).assignments_integer@),
        ensures
            final(engine).wf(),
            final(engine).watch_list_cp == old(engine).watch_list_cp,
            extends(old(engine).assignments_integer@, final(engine).assignments_integer@),
            same_or_narrower(old(engine).assignments_integer@, final(engine).assignments_integer@),
            final(engine).assignments_integer@ == old(engine).assignments_integer@ ==> final(engine).propagator_queue@
                == old(engine).propagator_queue@,
            r is Err ==> r == Err::<(), StoredConflictInfo>(
                StoredConflictInfo::Propagator { propagator_id: id },
            ),
            wakes(
                &old(engine).watch_list_cp,
                cp_propagators.priorities@,
                old(engine).assignments_integer@,
                old(engine).propagator_queue@,
                final(engine).assignments_integer@,
                final(engine).propagator_queue@,
            ),
            forall|assignment: spec_fn(DomainId) -> int|
                self.holds(assignment) && within(assignment, old(engine).assignments_integer@)
                    ==> #[trigger] within(assignment, final(engine).assignments_integer@),
            r is Err ==> forall|assignment: spec_fn(DomainId) -> int|
                !(self.holds(assignment) && #[trigger] within(
                    assignment,
                    old(engine).assignments_integer@,
                )),
            self matches Propagator::LinearLessOrEqual(propagator) ==> {
                &&& r is Err <==> is_violated(&propagator.inequality, old(engine).assignments_integer@)
                &&& r is Err ==> final(engine).assignments_integer@ == old(engine).assignments_integer@
                &&& r is Ok ==> at_fixpoint(&propagator.inequality, final(engine).assignments_integer@)
                &&& r is Ok ==> !is_violated(&propagator.inequality, final(engine).assignments_integer@)
            },
            self matches Propagator::LinearInequalityLiteral(propagator) ==> (
            final(engine).assignments_integer@, r is Ok) == propagator.spec_propagate(
                old(engine).assignments_integer@,
                Some(ReasonRef(old(reason_store).reasons().len() as usize)),
            ),
            self matches Propagator::LinearInequalityLiteral(propagator) ==> (r is Ok
                ==> propagator.at_rest(final(engine).assignments_integer@)),
    {
        match self {
            Propagator::LinearLessOrEqual(propagator) => propagator.propagate(
                id,
                engine,
                cp_propagators,
                reason_store,
            ),
            Propagator::LinearInequalityLiteral(propagator) => propagator.propagate(
                id,
                engine,
                cp_propagators,
                reason_store,
            ),
        }
    }

    pub fn priority(&self) -> (r: u32)
        ensures
            r == self.spec_priority(),
            r < NUM_PRIORITY_LEVELS,
    {
        match self {
            Propagator::LinearLessOrEqual(propagator) => propagator.priority(),
            Propagator::LinearInequalityLiteral(propagator) => propagator.priority(),
        }
    }

    /// A copy of the inequality by which the propagator explains what it
    /// infers; `None` where it explains otherwise.
    pub fn linear_inequality_explanation(&self) -> (r: Option<LinearLessOrEqual>)
        ensures
            r is Some <==> self.explanation() is Some,
            r is Some ==> r->0.lhs@ == self.explanation()->0.lhs@ && r->0.rhs
                == self.explanation()->0.rhs,
    {
        match self {
            Propagator::LinearLessOrEqual(propagator) => propagator.linear_inequality_explanation(),
            Propagator::LinearInequalityLiteral(_) => None,
        }
    }
}

} // verus!
