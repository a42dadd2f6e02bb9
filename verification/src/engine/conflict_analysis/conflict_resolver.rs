//! What a conflict resolver does: say what to learn from a conflict, and
//! bring the solver into the state from which search goes on.

use vstd::prelude::*;
use crate::basic_types::domain_id::DomainId;
use crate::engine::conflict_analysis::conflict_analysis_context::ConflictAnalysisContext;
use crate::engine::conflict_analysis::learned_nogood::ConflictResolveResult;

verus! {

/// The constraints of `later` hold of the same assignments as those of
/// `earlier`.
pub open spec fn same_solutions(earlier: &ConflictAnalysisContext, later: &ConflictAnalysisContext) -> bool {
    forall|assignment: spec_fn(DomainId) -> int| #[trigger]
        earlier.propagators.all_hold(assignment) <==> later.propagators.all_hold(assignment)
}

pub trait ConflictResolver {
    /// Analyses the conflict that `context` records. Reads the state and
    /// leaves it as it is, but for counters. What it returns backjumps below
    /// the current level and, where it is an inequality, is implied by the
    /// constraints.
    fn resolve_conflict(&mut self, context: &mut ConflictAnalysisContext) -> (r: Option<
        ConflictResolveResult,
    >)
        requires
            old(context).wf(),
            old(context).view().decision_level > 0,
        ensures
            final(context).wf(),
            final(context).view() == old(context).view(),
            final(context).propagators == old(context).propagators,
            final(context).engine == old(context).engine,
            final(context).conflict_info == old(context).conflict_info,
            final(context).decisions == old(context).decisions,
            final(context).reason_store == old(context).reason_store,
            r matches Some(result) ==> result.is_valid_for(final(context)),
    ;

    /// Acts on the result of `resolve_conflict`: backtracks and installs
    /// what was learned. Fails where nothing is left to try. Only adds
    /// constraints that the others imply. Where the domains kept the
    /// solutions and none agrees with the decisions, the domains keep the
    /// solutions afterwards, and a failure means that there is none.
    fn process(&mut self, context: &mut ConflictAnalysisContext, resolve_result: &Option<
        ConflictResolveResult,
    >) -> (r: Result<(), ()>)
        requires
            old(context).wf(),
            resolve_result matches Some(result) ==> result.is_valid_for(old(context)),
        ensures
            final(context).wf(),
            final(context).view().initial_bounds == old(context).view().initial_bounds,
            final(context).view().decision_level <= old(context).view().decision_level,
            same_solutions(old(context), final(context)),
            old(context).keeps_solutions() && old(context).decisions_refuted()
                ==> final(context).keeps_solutions() && (r is Err ==> final(context).has_no_solution()),
    ;
}

} // verus!
