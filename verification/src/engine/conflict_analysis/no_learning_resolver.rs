//! The resolver that learns nothing: it undoes the last decision and takes
//! the opposite one.

use vstd::prelude::*;
use crate::engine::conflict_analysis::conflict_analysis_context::ConflictAnalysisContext;
use crate::engine::conflict_analysis::conflict_resolver::ConflictResolver;
use crate::engine::conflict_analysis::learned_nogood::ConflictResolveResult;

verus! {

#[derive(Default, Clone, Copy, Debug)]
pub struct NoLearningResolver;

impl NoLearningResolver {
    pub fn new() -> (r: NoLearningResolver) {
        NoLearningResolver
    }
}

impl ConflictResolver for NoLearningResolver {
    fn resolve_conflict(&mut self, context: &mut ConflictAnalysisContext) -> (r: Option<
        ConflictResolveResult,
    >)
        ensures
            *final(context) == *old(context),
            r is None,
    {
        None
    }

    /// Undoes the last decision and posts its negation. Fails, at the root
    /// level, where no decision is left.
    fn process(&mut self, context: &mut ConflictAnalysisContext, resolve_result: &Option<
        ConflictResolveResult,
    >) -> (r: Result<(), ()>)
        ensures
            final(context).propagators == old(context).propagators,
            r is Ok ==> final(context).view().decision_level < old(context).view().decision_level,
            r is Err ==> final(context).view().decision_level == 0,
            (final(context).search(), r is Ok) == old(context).search().undone(),
            final(context).engine.watch_list_cp == old(context).engine.watch_list_cp,
            final(context).conflict_info == old(context).conflict_info,
            final(context).counters == old(context).counters,
            final(context).learned_constraint_log == old(context).learned_constraint_log,
            final(context).is_completing_proof == old(context).is_completing_proof,
    {
        context.undo_last_decision()
    }
}

} // verus!
