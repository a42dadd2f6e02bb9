//! The propagation loop: run what waits in the queue until nothing waits,
//! or until a propagator reports a conflict.

use vstd::prelude::*;
use crate::engine::domain_width::lemma_same_or_narrower_chain;
use crate::engine::domain_width::same_or_narrower;
use crate::engine::propagation::waking::all_settled;
use crate::engine::propagation::waking::awake;
use crate::engine::propagation::waking::lemma_pop_keeps_others;
use crate::engine::propagation::waking::lemma_stays_awake;
use crate::engine::propagation::waking::watched;
use crate::engine::propagator_queue::PropagatorId;
use crate::engine::propagator_queue::holds;
use crate::engine::propagation::waking::settled;
use crate::basic_types::stored_conflict_info::StoredConflictInfo;
use crate::engine::cp_engine_data_structures::CPEngineDataStructures;
use crate::engine::domain_width::extends;
use crate::engine::domain_width::lemma_extends_reflexive;
use crate::engine::domain_width::lemma_extends_transitive;
use crate::engine::domain_width::lemma_width_nonnegative;
use crate::engine::domain_width::total_width;
use crate::engine::propagation::propagator::Propagator;
use crate::engine::propagation::store::PropagatorStore;
use crate::propagators::linear_less_or_equal::is_violated;
use crate::engine::propagator_queue::all_empty;
use crate::engine::propagator_queue::first_nonempty;
use crate::engine::propagator_queue::lemma_total_length_update;
use crate::engine::propagator_queue::total_length;
use crate::engine::reason_store::ReasonStore;
use crate::basic_types::domain_id::DomainId;
use crate::engine::solutions::within;

verus! {

/// Runs the propagators that wait, each waking those that watch what it
/// changed, until none waits or one finds its constraint violated. The loop
/// ends because a propagator that changes something leaves the domains with
/// less room, and one that changes nothing wakes nobody. Where every
/// propagator of a linear inequality is registered for its terms, and those
/// that are violated or not at their fixpoint wait, every linear inequality
/// can hold and is at its fixpoint when nothing waits any more. No value is removed
/// that an assignment takes of which all constraints hold, and a conflict
/// is found only where there is no such assignment within the domains.
pub fn propagate_to_fixpoint(
    engine: &mut CPEngineDataStructures,
    cp_propagators: &PropagatorStore,
    reason_store: &mut ReasonStore,
) -> (r: Result<(), StoredConflictInfo>)
    requires
        old(engine).wf(),
        cp_propagators.wf(old(engine).assignments_integer@),
    ensures
        final(engine).wf(),
        final(engine).watch_list_cp == old(engine).watch_list_cp,
        extends(old(engine).assignments_integer@, final(engine).assignments_integer@),
        same_or_narrower(old(engine).assignments_integer@, final(engine).assignments_integer@),
        r is Ok ==> all_empty(final(engine).propagator_queue@),
        r is Ok && watched(cp_propagators, &old(engine).watch_list_cp) && awake(
            old(engine).propagator_queue@,
            cp_propagators,
            old(engine).assignments_integer@,
            None,
        ) ==> all_settled(cp_propagators, final(engine).assignments_integer@),
        forall|assignment: spec_fn(DomainId) -> int|
            cp_propagators.all_hold(assignment) && within(assignment, old(engine).assignments_integer@)
                ==> #[trigger] within(assignment, final(engine).assignments_integer@),
        r is Err ==> forall|assignment: spec_fn(DomainId) -> int|
            !(cp_propagators.all_hold(assignment) && #[trigger] within(
                assignment,
                old(engine).assignments_integer@,
            )),
        r matches Err(info) ==> info matches StoredConflictInfo::Propagator { propagator_id }
            && (propagator_id.0 as int) < cp_propagators.propagators@.len() && (
        cp_propagators.propagators@[propagator_id.0 as int] matches Propagator::LinearLessOrEqual(
            propagator,
        ) ==> is_violated(&propagator.inequality, final(engine).assignments_integer@)),
{
    proof {
        lemma_extends_reflexive(engine.assignments_integer@);
        engine.assignments_integer.lemma_view_wf();
    }
    loop
        invariant
            engine.wf(),
            cp_propagators.wf(old(engine).assignments_integer@),
            engine.watch_list_cp == old(engine).watch_list_cp,
            extends(old(engine).assignments_integer@, engine.assignments_integer@),
            same_or_narrower(old(engine).assignments_integer@, engine.assignments_integer@),
            old(engine).assignments_integer@.wf(),
            watched(cp_propagators, &old(engine).watch_list_cp) && awake(
                old(engine).propagator_queue@,
                cp_propagators,
                old(engine).assignments_integer@,
                None,
            ) ==> awake(engine.propagator_queue@, cp_propagators, engine.assignments_integer@, None),
            forall|assignment: spec_fn(DomainId) -> int|
                cp_propagators.all_hold(assignment) && #[trigger] within(
                    assignment,
                    old(engine).assignments_integer@,
                ) ==> within(assignment, engine.assignments_integer@),
        decreases total_width(engine.assignments_integer@), total_length(engine.propagator_queue@),
    {
        let ghost before = engine.assignments_integer@;
        let ghost queue_before = engine.propagator_queue@;
        proof {
            engine.assignments_integer.lemma_view_wf();
            lemma_width_nonnegative(before, before.num_domains());
        }
        if engine.propagator_queue.is_empty() {
            proof {
                if awake(queue_before, cp_propagators, before, None) {
                    assert forall|i: int|
                        0 <= i < cp_propagators.propagators@.len() && (
                        #[trigger] cp_propagators.propagators@[i]) is LinearLessOrEqual implies settled(
                        &cp_propagators.propagators@[i]->LinearLessOrEqual_0.inequality,
                        before,
                    ) by {
                        assert(!holds(queue_before, PropagatorId(i as u32)));
                    }
                }
            }
            return Ok(());
        }
        let id = engine.propagator_queue.pop();
        proof {
            let p = first_nonempty(queue_before);
            lemma_total_length_update(queue_before, p, queue_before[p].drop_first());
            assert(queue_before[p].drop_first().len() == queue_before[p].len() - 1);
            assert(total_length(engine.propagator_queue@) == total_length(queue_before) - 1);
        }
        let ghost queue_popped = engine.propagator_queue@;
        let ghost rested = awake(queue_before, cp_propagators, before, None);
        proof {
            if rested {
                assert forall|i: int|
                    0 <= i < cp_propagators.propagators@.len() && (
                    #[trigger] cp_propagators.propagators@[i]) is LinearLessOrEqual && Some(
                        PropagatorId(i as u32),
                    ) != Some(id) && !settled(
                        &cp_propagators.propagators@[i]->LinearLessOrEqual_0.inequality,
                        before,
                    ) implies holds(queue_popped, PropagatorId(i as u32)) by {
                    lemma_pop_keeps_others(queue_before, PropagatorId(i as u32));
                }
                assert(awake(queue_popped, cp_propagators, before, Some(id)));
            }
        }
        if (id.0 as usize) < cp_propagators.num_propagators() {
            let propagator = cp_propagators.get(id);
            assert(cp_propagators.propagators@[id.0 as int].wf(old(engine).assignments_integer@));
            let status = propagator.propagate(id, engine, cp_propagators, reason_store);
            proof {
                lemma_extends_transitive(
                    old(engine).assignments_integer@,
                    before,
                    engine.assignments_integer@,
                );
                lemma_same_or_narrower_chain(
                    old(engine).assignments_integer@,
                    before,
                    engine.assignments_integer@,
                );
                assert forall|assignment: spec_fn(DomainId) -> int|
                    cp_propagators.all_hold(assignment) && #[trigger] within(
                        assignment,
                        old(engine).assignments_integer@,
                    ) implies within(assignment, engine.assignments_integer@) && status is Ok by {
                    assert(within(assignment, before));
                    assert(cp_propagators.propagators@[id.0 as int].holds(assignment));
                }
                if rested && watched(cp_propagators, &old(engine).watch_list_cp) {
                    assert forall|i: int| 0 <= i < cp_propagators.propagators@.len() implies (
                    #[trigger] cp_propagators.propagators@[i]).wf(before) by {
                        assert(cp_propagators.propagators@[i].wf(old(engine).assignments_integer@));
                    }
                    assert(cp_propagators.wf(before));
                    lemma_stays_awake(
                        cp_propagators,
                        &engine.watch_list_cp,
                        before,
                        queue_popped,
                        engine.assignments_integer@,
                        engine.propagator_queue@,
                        Some(id),
                    );
                }
                if engine.assignments_integer@ == before {
                    assert(engine.propagator_queue@ == queue_popped);
                } else {
                    assert(total_width(engine.assignments_integer@) < total_width(before));
                }
            }
            match status {
                Err(info) => {
                    return Err(info);
                },
                Ok(_) => {},
            }
        }
        proof {
            engine.assignments_integer.lemma_view_wf();
            lemma_width_nonnegative(
                engine.assignments_integer@,
                engine.assignments_integer@.num_domains(),
            );
        }
    }
}

} // verus!
