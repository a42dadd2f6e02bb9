//! The walk back over the trail that turns a conflicting linear inequality
//! into one worth learning, by eliminating, cut after cut, the variable
//! whose propagation made the conflict.

use vstd::prelude::*;
use crate::basic_types::domain_id::DomainId;
use crate::basic_types::linear_less_or_equal::LinearLessOrEqual;
use crate::basic_types::linear_terms::coefficient;
use crate::basic_types::linear_terms::lemma_coefficient_of_term;
use crate::basic_types::linear_terms::mentions;
use crate::basic_types::stored_conflict_info::StoredConflictInfo;
use crate::engine::assignments_view::lemma_trail_length_at_level;
use crate::engine::conflict_analysis::conflict_analysis_context::ConflictAnalysisContext;
use crate::engine::conflict_analysis::conflict_analysis_context::implied_by;
use crate::engine::conflict_analysis::conflict_analysis_context::unsatisfiable;
use crate::engine::conflict_analysis::cut::CutResult;
use crate::engine::conflict_analysis::cut::apply_cut;
use crate::engine::conflict_analysis::cut::combined_coefficient;
use crate::engine::conflict_analysis::cut::combined_rhs;
use crate::engine::conflict_analysis::cut::cut_cancels_everything;
use crate::engine::conflict_analysis::cut::cut_in_range;
use crate::engine::conflict_analysis::cut::first_multiplier;
use crate::engine::conflict_analysis::cut::fits_i32;
use crate::engine::conflict_analysis::cut::has_clash;
use crate::engine::conflict_analysis::cut::is_combination_divided_by;
use crate::engine::conflict_analysis::cut::is_cut_of;
use crate::engine::conflict_analysis::cut::second_multiplier;
use crate::engine::conflict_analysis::learned_nogood::LearnedConstraint;

verus! {

/// Why the analysis gave up.
#[derive(Clone, Copy, Debug, PartialEq, Eq, Structural)]
pub enum FallbackReason {
    /// The proof is being completed.
    CompletingProof,
    /// The conflict came from a propagator that does not explain with a
    /// linear inequality.
    ConflictNotLinear,
    /// A domain became empty through a decision.
    EmptyDomainByDecision,
    /// A domain became empty through a propagator that does not explain with
    /// a linear inequality.
    EmptyDomainNotLinear,
    /// The walk reached a decision, or the start of the trail.
    DecisionReached,
    /// The walk reached an entry whose reason is no linear inequality.
    DetectedNogoods,
    /// A cut left nothing but a true statement.
    NothingLearned,
    /// A cut, or the evaluation of its result, left the `i32` range.
    Overflow,
    /// The result of a cut is not violated where it should be.
    NotConflicting,
}

/// How the analysis ended.
#[derive(Debug)]
pub enum IntSatOutcome {
    Fallback(FallbackReason),
    /// The constraints contradict each other.
    Contradiction,
    Learned(LearnedConstraint),
}

/// The inequality the analysis starts from, or why there is none.
pub open spec fn spec_initial_constraint(context: &ConflictAnalysisContext) -> Result<
    LinearLessOrEqual,
    FallbackReason,
> {
    if context.is_completing_proof {
        Err(FallbackReason::CompletingProof)
    } else {
        match context.conflict_info {
            StoredConflictInfo::Propagator { propagator_id } => match context.explanation_of_propagator(
                propagator_id,
            ) {
                Some(explanation) => Ok(explanation),
                None => Err(FallbackReason::ConflictNotLinear),
            },
            StoredConflictInfo::EmptyDomain => if context.view().trail.len() == 0 {
                Err(FallbackReason::EmptyDomainByDecision)
            } else {
                match context.view().trail.last().reason {
                    None => Err(FallbackReason::EmptyDomainByDecision),
                    Some(reference) => match context.explanation_of(reference) {
                        Some(explanation) => Ok(explanation),
                        None => Err(FallbackReason::EmptyDomainNotLinear),
                    },
                }
            },
            StoredConflictInfo::RootLevelConflict => Err(FallbackReason::ConflictNotLinear),
        }
    }
}

/// The inequality the analysis starts from: the explanation of the
/// propagator that found the conflict, or of the reason of the last trail
/// entry where a domain became empty.
pub fn initial_constraint(context: &ConflictAnalysisContext) -> (r: Result<
    LinearLessOrEqual,
    FallbackReason,
>)
    requires
        context.wf(),
    ensures
        r is Ok <==> spec_initial_constraint(context) is Ok,
        r matches Ok(c) ==> c.lhs@ == spec_initial_constraint(context)->Ok_0.lhs@ && c.rhs
            == spec_initial_constraint(context)->Ok_0.rhs && c.wf() && c.valid_for(context.view())
            && implied_by(&context.propagators, &c),
        r matches Err(reason) ==> spec_initial_constraint(context) == Err::<
            LinearLessOrEqual,
            FallbackReason,
        >(reason),
{
    if context.is_completing_proof {
        return Err(FallbackReason::CompletingProof);
    }
    match context.conflict_info {
        StoredConflictInfo::Propagator { propagator_id } => {
            match context.get_explanation_of_propagator(propagator_id) {
                Some(explanation) => Ok(explanation),
                None => Err(FallbackReason::ConflictNotLinear),
            }
        },
        StoredConflictInfo::EmptyDomain => {
            let length = context.engine.assignments_integer.num_trail_entries();
            if length == 0 {
                return Err(FallbackReason::EmptyDomainByDecision);
            }
            let last_entry = context.engine.assignments_integer.get_trail_entry(length - 1);
            match last_entry.reason {
                None => Err(FallbackReason::EmptyDomainByDecision),
                Some(reference) => match context.get_explanation_of(reference) {
                    Some(explanation) => Ok(explanation),
                    None => Err(FallbackReason::EmptyDomainNotLinear),
                },
            }
        },
        StoredConflictInfo::RootLevelConflict => Err(FallbackReason::ConflictNotLinear),
    }
}

/// At the trail length that backtracking to `level` leaves, `c` can be
/// evaluated and is violated or removes a value.
pub open spec fn acts_at_level(c: &LinearLessOrEqual, context: &ConflictAnalysisContext, level: u32) -> bool {
    let n = context.view().trail_length_at_level(level);
    &&& !c.spec_overflows(context.view(), n)
    &&& c.spec_is_conflicting(context.view(), n) || c.spec_is_propagating(context.view(), n)
}

/// At the trail length that backtracking to `level` leaves, `c` can be
/// evaluated, holds in some values, and removes none.
pub open spec fn idle_at_level(c: &LinearLessOrEqual, context: &ConflictAnalysisContext, level: u32) -> bool {
    let n = context.view().trail_length_at_level(level);
    &&& !c.spec_overflows(context.view(), n)
    &&& !c.spec_is_conflicting(context.view(), n)
    &&& !c.spec_is_propagating(context.view(), n)
}

/// What looking through the levels for one at which an inequality acts
/// comes to.
pub enum LevelScan {
    /// The lowest level at which the inequality acts.
    Found(u32),
    /// At some level, below which the inequality is idle, it cannot be
    /// evaluated.
    Overflow,
    /// The inequality is idle at every level below the current one.
    Idle,
}

/// Looks through the levels from `level` up to the current one, which is
/// left out.
pub open spec fn scan_levels(c: LinearLessOrEqual, context: &ConflictAnalysisContext, level: u32) -> LevelScan
    decreases context.view().decision_level - level,
{
    if level >= context.view().decision_level {
        LevelScan::Idle
    } else {
        let n = context.view().trail_length_at_level(level);
        if c.spec_overflows(context.view(), n) {
            LevelScan::Overflow
        } else if c.spec_is_conflicting(context.view(), n) || c.spec_is_propagating(
            context.view(),
            n,
        ) {
            LevelScan::Found(level)
        } else {
            scan_levels(c, context, (level + 1) as u32)
        }
    }
}

/// The outcome is a fallback for the reason `reason`.
pub open spec fn is_fallback(outcome: IntSatOutcome, reason: FallbackReason) -> bool {
    outcome matches IntSatOutcome::Fallback(given) && given == reason
}

/// The outcome is the inequality `c`, learned with the level `level`.
pub open spec fn is_learned(outcome: IntSatOutcome, c: LinearLessOrEqual, level: u32) -> bool {
    outcome matches IntSatOutcome::Learned(learned) && learned.constraint.lhs@ == c.lhs@
        && learned.constraint.rhs == c.rhs && learned.backjump_level == level
}

/// Whether the walk that stands at trail entry `n - 1`, with the
/// inequality `c`, ends in `outcome`. The walk passes over an entry whose
/// variable `c` does not hold, after which `c` is not violated, or whose
/// explanation does not hold that variable with the opposite sign. It ends
/// in a fallback at a decision, at the start of the trail, where `c` cannot
/// be evaluated, and at an entry without a linear explanation. At any other
/// entry it cuts, and goes on as `walk_ends_after_cut` says.
pub open spec fn walk_ends_in(
    context: &ConflictAnalysisContext,
    c: LinearLessOrEqual,
    n: nat,
    outcome: IntSatOutcome,
) -> bool
    decreases n, 0nat,
{
    if n == 0 {
        is_fallback(outcome, FallbackReason::DecisionReached)
    } else {
        let entry = context.view().trail[n - 1];
        match entry.reason {
            None => is_fallback(outcome, FallbackReason::DecisionReached),
            Some(reference) => match entry.predicate.domain() {
                None => walk_ends_in(context, c, (n - 1) as nat, outcome),
                Some(var) => if !mentions(c.lhs@, var) {
                    walk_ends_in(context, c, (n - 1) as nat, outcome)
                } else if c.spec_overflows(context.view(), n) {
                    is_fallback(outcome, FallbackReason::Overflow)
                } else if !c.spec_is_conflicting(context.view(), n) {
                    walk_ends_in(context, c, (n - 1) as nat, outcome)
                } else {
                    match context.explanation_of(reference) {
                        None => is_fallback(outcome, FallbackReason::DetectedNogoods),
                        Some(explanation) => if !mentions(explanation.lhs@, var) || (coefficient(
                            c.lhs@,
                            var,
                        ) > 0) == (coefficient(explanation.lhs@, var) > 0) {
                            walk_ends_in(context, c, (n - 1) as nat, outcome)
                        } else {
                            exists|cut: CutResult| #[trigger]
                                is_cut_of(cut, var, &c, &explanation) && walk_ends_after_cut(
                                    context,
                                    cut,
                                    (n - 1) as nat,
                                    outcome,
                                )
                        },
                    }
                },
            },
        }
    }
}

/// Whether the walk ends in `outcome` after the cut `cut` at trail entry
/// `n`. A cut that fails ends the walk: in a fallback, or, for a
/// contradiction, in the outcome of that name. The result of a cut that
/// succeeds must be violated after the first `n` entries, else the walk
/// ends in a fallback. Where the cut had only the eliminated variable in
/// common, or its result is idle at every level below the current one, the
/// walk goes on with the result. Otherwise it ends: in the result, learned
/// with the lowest level at which it acts, or in a fallback where it cannot
/// be evaluated at a level up to there.
pub open spec fn walk_ends_after_cut(
    context: &ConflictAnalysisContext,
    cut: CutResult,
    n: nat,
    outcome: IntSatOutcome,
) -> bool
    decreases n, 1nat,
{
    match cut {
        CutResult::NothingLearned => is_fallback(outcome, FallbackReason::NothingLearned),
        CutResult::Overflow => is_fallback(outcome, FallbackReason::Overflow),
        CutResult::Contradiction => outcome is Contradiction,
        CutResult::Success { inequality, skip_early_backjump } => if inequality.spec_overflows(
            context.view(),
            n,
        ) {
            is_fallback(outcome, FallbackReason::Overflow)
        } else if !inequality.spec_is_conflicting(context.view(), n) {
            is_fallback(outcome, FallbackReason::NotConflicting)
        } else if skip_early_backjump {
            walk_ends_in(context, inequality, n, outcome)
        } else {
            match scan_levels(inequality, context, 0) {
                LevelScan::Overflow => is_fallback(outcome, FallbackReason::Overflow),
                LevelScan::Found(level) => is_learned(outcome, inequality, level),
                LevelScan::Idle => walk_ends_in(context, inequality, n, outcome),
            }
        },
    }
}

/// Whether the analysis of the conflict that `context` records ends in
/// `outcome`: in a fallback where there is no inequality to start from, and
/// else as the walk from the newest trail entry ends.
pub open spec fn is_outcome_of_analysis(context: &ConflictAnalysisContext, outcome: IntSatOutcome) -> bool {
    match spec_initial_constraint(context) {
        Err(reason) => is_fallback(outcome, reason),
        Ok(initial) => exists|start: LinearLessOrEqual|
            start.lhs@ == initial.lhs@ && start.rhs == initial.rhs && #[trigger] walk_ends_in(
                context,
                start,
                context.view().trail.len(),
                outcome,
            ),
    }
}

/// A level that the scan finds is the lowest at which the inequality acts:
/// it acts there, and is idle at every level from `from` up to there.
pub proof fn lemma_scan_finds_lowest(c: LinearLessOrEqual, context: &ConflictAnalysisContext, from: u32)
    requires
        scan_levels(c, context, from) is Found,
    ensures
        from <= scan_levels(c, context, from)->Found_0 < context.view().decision_level,
        acts_at_level(&c, context, scan_levels(c, context, from)->Found_0),
        forall|lower: u32|
            from <= lower < scan_levels(c, context, from)->Found_0 ==> #[trigger] idle_at_level(
                &c,
                context,
                lower,
            ),
    decreases context.view().decision_level - from,
{
    if from < context.view().decision_level {
        let n = context.view().trail_length_at_level(from);
        if !c.spec_overflows(context.view(), n) && !(c.spec_is_conflicting(context.view(), n)
            || c.spec_is_propagating(context.view(), n)) {
            lemma_scan_finds_lowest(c, context, (from + 1) as u32);
        }
    }
}

/// Where the walk goes after a cut. A cut that overflows, and one whose
/// result cannot be evaluated, end it in a fallback. A cut that succeeds
/// with a result that is violated: where only the eliminated variable was
/// shared, no level is looked for and the walk goes on with the result;
/// else the levels are looked through, and the result is learned with the
/// lowest level at which it acts, or the walk goes on with it where it is
/// idle at all of them.
pub proof fn lemma_paths_after_cut(
    context: &ConflictAnalysisContext,
    cut: CutResult,
    n: nat,
    outcome: IntSatOutcome,
)
    requires
        walk_ends_after_cut(context, cut, n, outcome),
    ensures
        cut is Overflow ==> is_fallback(outcome, FallbackReason::Overflow),
        cut is NothingLearned ==> is_fallback(outcome, FallbackReason::NothingLearned),
        cut is Contradiction ==> outcome is Contradiction,
        cut matches CutResult::Success { inequality, skip_early_backjump } ==> {
            if inequality.spec_overflows(context.view(), n) {
                is_fallback(outcome, FallbackReason::Overflow)
            } else if !inequality.spec_is_conflicting(context.view(), n) {
                is_fallback(outcome, FallbackReason::NotConflicting)
            } else if skip_early_backjump {
                walk_ends_in(context, inequality, n, outcome)
            } else {
                match scan_levels(inequality, context, 0) {
                    LevelScan::Overflow => is_fallback(outcome, FallbackReason::Overflow),
                    LevelScan::Found(level) => is_learned(outcome, inequality, level) && acts_at_level(
                        &inequality,
                        context,
                        level,
                    ) && forall|lower: u32|
                        lower < level ==> #[trigger] idle_at_level(&inequality, context, lower),
                    LevelScan::Idle => walk_ends_in(context, inequality, n, outcome),
                }
            }
        },
{
    match cut {
        CutResult::Success { inequality, skip_early_backjump } => {
            if scan_levels(inequality, context, 0) is Found {
                lemma_scan_finds_lowest(inequality, context, 0);
            }
        },
        _ => {},
    }
}

/// Where the walk ends without a cut: at a decision or at the start of the
/// trail, in a fallback; at an entry on a variable of the inequality where
/// the inequality cannot be evaluated, in a fallback; and at such an entry
/// after which the inequality is violated and whose reason has no linear
/// explanation, in a fallback.
pub proof fn lemma_paths_of_the_walk(
    context: &ConflictAnalysisContext,
    c: LinearLessOrEqual,
    n: nat,
    outcome: IntSatOutcome,
)
    requires
        walk_ends_in(context, c, n, outcome),
    ensures
        n == 0 || context.view().trail[n - 1].reason is None ==> is_fallback(
            outcome,
            FallbackReason::DecisionReached,
        ),
        n > 0 && context.view().trail[n - 1].reason is Some && context.view().trail[n
            - 1].predicate.domain() is Some && mentions(
            c.lhs@,
            context.view().trail[n - 1].predicate.domain()->0,
        ) ==> {
            if c.spec_overflows(context.view(), n) {
                is_fallback(outcome, FallbackReason::Overflow)
            } else {
                c.spec_is_conflicting(context.view(), n) && context.explanation_of(
                    context.view().trail[n - 1].reason->0,
                ) is None ==> is_fallback(outcome, FallbackReason::DetectedNogoods)
            }
        },
{
}

/// What a cut is depends on the terms and the right-hand side of the
/// second inequality alone.
proof fn lemma_cut_of_equal_explanation(
    cut: CutResult,
    var: DomainId,
    c: &LinearLessOrEqual,
    first: &LinearLessOrEqual,
    second: &LinearLessOrEqual,
)
    requires
        is_cut_of(cut, var, c, first),
        first.lhs@ == second.lhs@,
        first.rhs == second.rhs,
    ensures
        is_cut_of(cut, var, c, second),
{
    assert(first_multiplier(var, c, first) == first_multiplier(var, c, second));
    assert(second_multiplier(var, c, first) == second_multiplier(var, c, second));
    assert(combined_rhs(var, c, first) == combined_rhs(var, c, second));
    assert forall|x: DomainId| #[trigger]
        combined_coefficient(var, c, first, x) == combined_coefficient(var, c, second, x) by {}
    assert(cut_in_range(var, c, first) == cut_in_range(var, c, second)) by {
        if cut_in_range(var, c, first) {
            assert forall|x: DomainId|
                fits_i32(#[trigger] combined_coefficient(var, c, second, x)) by {
                assert(fits_i32(combined_coefficient(var, c, first, x)));
            }
        }
        if cut_in_range(var, c, second) {
            assert forall|x: DomainId|
                fits_i32(#[trigger] combined_coefficient(var, c, first, x)) by {
                assert(fits_i32(combined_coefficient(var, c, second, x)));
            }
        }
    }
    assert(cut_cancels_everything(var, c, first) == cut_cancels_everything(var, c, second)) by {
        if cut_cancels_everything(var, c, first) {
            assert forall|x: DomainId| #[trigger] combined_coefficient(var, c, second, x) == 0 by {
                assert(combined_coefficient(var, c, first, x) == 0);
            }
        }
        if cut_cancels_everything(var, c, second) {
            assert forall|x: DomainId| #[trigger] combined_coefficient(var, c, first, x) == 0 by {
                assert(combined_coefficient(var, c, second, x) == 0);
            }
        }
    }
    assert(has_clash(var, c, first) == has_clash(var, c, second));
    match cut {
        CutResult::Success { inequality, skip_early_backjump } => {
            let divisor = choose|divisor: int| #[trigger]
                is_combination_divided_by(&inequality, divisor, var, c, first);
            assert(is_combination_divided_by(&inequality, divisor, var, c, second)) by {
                assert forall|x: DomainId|
                    coefficient(inequality.lhs@, x) * divisor == #[trigger] combined_coefficient(
                        var,
                        c,
                        second,
                        x,
                    ) by {
                    assert(coefficient(inequality.lhs@, x) * divisor == combined_coefficient(
                        var,
                        c,
                        first,
                        x,
                    ));
                }
            }
        },
        _ => {},
    }
}

/// The lowest level below the current one at which `c` is violated or
/// removes a value, unless before that a level comes at which `c` cannot
/// be evaluated.
fn find_backjump_level(c: &LinearLessOrEqual, context: &ConflictAnalysisContext) -> (r: LevelScan)
    requires
        context.wf(),
        c.wf(),
        c.valid_for(context.view()),
    ensures
        r == scan_levels(*c, context, 0),
        r matches LevelScan::Found(level) ==> level < context.view().decision_level && acts_at_level(
            c,
            context,
            level,
        ) && forall|lower: u32| lower < level ==> #[trigger] idle_at_level(c, context, lower),
        r is Idle ==> forall|lower: u32|
            lower < context.view().decision_level ==> #[trigger] idle_at_level(c, context, lower),
{
    let current_decision_level = context.engine.assignments_integer.get_decision_level();
    let mut backjump_level: u32 = 0;
    while backjump_level < current_decision_level
        invariant
            context.wf(),
            c.wf(),
            c.valid_for(context.view()),
            current_decision_level == context.view().decision_level,
            backjump_level <= current_decision_level,
            scan_levels(*c, context, backjump_level) == scan_levels(*c, context, 0),
            forall|lower: u32| lower < backjump_level ==> #[trigger] idle_at_level(c, context, lower),
        decreases current_decision_level - backjump_level,
    {
        let n = context.engine.assignments_integer.get_trail_length_at_level(backjump_level);
        proof {
            context.engine.assignments_integer.lemma_view_wf();
            lemma_trail_length_at_level(context.view(), backjump_level);
        }
        if c.overflows_after(&context.engine.assignments_integer, n) {
            return LevelScan::Overflow;
        }
        let is_propagating = c.is_propagating_after(&context.engine.assignments_integer, n);
        let is_false = c.is_conflicting_after(&context.engine.assignments_integer, n);
        if is_propagating || is_false {
            return LevelScan::Found(backjump_level);
        }
        assert(idle_at_level(c, context, backjump_level));
        backjump_level += 1;
    }
    LevelScan::Idle
}

/// Analyses the conflict: starting from the inequality that explains it,
/// walks the trail from its newest entry back, as `walk_ends_in` says. At
/// an entry whose variable the inequality holds and after which the
/// inequality is violated, the inequality is cut with the explanation of
/// that entry, provided the two hold the variable with opposite signs. The
/// result of a cut must again be violated before the entry. Unless the cut
/// had only the eliminated variable in common, the lowest level at which
/// the result is violated or removes a value is looked for, and if there is
/// one, the result is learned with that level to backjump to.
pub fn analyse_conflict(context: &ConflictAnalysisContext) -> (r: IntSatOutcome)
    requires
        context.wf(),
    ensures
        is_outcome_of_analysis(context, r),
        r matches IntSatOutcome::Learned(learned) ==> {
            &&& learned.backjump_level < context.view().decision_level
            &&& learned.constraint.wf()
            &&& learned.constraint.valid_for(context.view())
            &&& implied_by(&context.propagators, &learned.constraint)
            &&& acts_at_level(&learned.constraint, context, learned.backjump_level)
            &&& forall|lower: u32|
                lower < learned.backjump_level ==> #[trigger] idle_at_level(
                    &learned.constraint,
                    context,
                    lower,
                )
        },
        r is Contradiction ==> unsatisfiable(&context.propagators),
{
    let mut constraint = match initial_constraint(context) {
        Ok(explanation) => explanation,
        Err(reason) => {
            return IntSatOutcome::Fallback(reason);
        },
    };
    let ghost start = constraint;
    let length = context.engine.assignments_integer.num_trail_entries();
    let mut n = length;
    while n > 0
        invariant
            context.wf(),
            length == context.view().trail.len(),
            n <= length,
            constraint.wf(),
            constraint.valid_for(context.view()),
            implied_by(&context.propagators, &constraint),
            spec_initial_constraint(context) is Ok,
            start.lhs@ == spec_initial_constraint(context)->Ok_0.lhs@,
            start.rhs == spec_initial_constraint(context)->Ok_0.rhs,
            forall|outcome: IntSatOutcome| #[trigger]
                walk_ends_in(context, constraint, n as nat, outcome) ==> walk_ends_in(
                    context,
                    start,
                    length as nat,
                    outcome,
                ),
        decreases n,
    {
        let ghost here = n as nat;
        let ghost current = constraint;
        let entry = context.engine.assignments_integer.get_trail_entry(n - 1);
        let reference = match entry.reason {
            None => {
                let outcome = IntSatOutcome::Fallback(FallbackReason::DecisionReached);
                assert(walk_ends_in(context, current, here, outcome));
                return outcome;
            },
            Some(reference) => reference,
        };
        let var = match entry.predicate.get_domain() {
            None => {
                n -= 1;
                assert forall|outcome: IntSatOutcome| #[trigger]
                    walk_ends_in(context, constraint, n as nat, outcome) implies walk_ends_in(
                    context,
                    start,
                    length as nat,
                    outcome,
                ) by {
                    assert(walk_ends_in(context, current, here, outcome));
                }
                continue ;
            },
            Some(var) => var,
        };
        if !constraint.contains_variable(var) {
            n -= 1;
            assert forall|outcome: IntSatOutcome| #[trigger]
                walk_ends_in(context, constraint, n as nat, outcome) implies walk_ends_in(
                context,
                start,
                length as nat,
                outcome,
            ) by {
                assert(walk_ends_in(context, current, here, outcome));
            }
            continue ;
        }
        if constraint.overflows_after(&context.engine.assignments_integer, n) {
            let outcome = IntSatOutcome::Fallback(FallbackReason::Overflow);
            assert(walk_ends_in(context, current, here, outcome));
            return outcome;
        }
        if !constraint.is_conflicting_after(&context.engine.assignments_integer, n) {
            n -= 1;
            assert forall|outcome: IntSatOutcome| #[trigger]
                walk_ends_in(context, constraint, n as nat, outcome) implies walk_ends_in(
                context,
                start,
                length as nat,
                outcome,
            ) by {
                assert(walk_ends_in(context, current, here, outcome));
            }
            continue ;
        }
        n -= 1;
        let explanation = match context.get_explanation_of(reference) {
            None => {
                let outcome = IntSatOutcome::Fallback(FallbackReason::DetectedNogoods);
                assert(walk_ends_in(context, current, here, outcome));
                return outcome;
            },
            Some(explanation) => explanation,
        };
        let ghost stored = context.explanation_of(reference)->0;
        let scale1 = constraint.find_variable_scale(var).unwrap();
        let scale2 = match explanation.find_variable_scale(var) {
            None => {
                assert forall|outcome: IntSatOutcome| #[trigger]
                    walk_ends_in(context, constraint, n as nat, outcome) implies walk_ends_in(
                    context,
                    start,
                    length as nat,
                    outcome,
                ) by {
                    assert(!mentions(stored.lhs@, var));
                    assert(walk_ends_in(context, current, here, outcome));
                }
                continue ;
            },
            Some(scale) => scale,
        };
        proof {
            let i1 = choose|i: int|
                0 <= i < constraint.lhs@.len() && #[trigger] constraint.lhs@[i] == (var, scale1);
            lemma_coefficient_of_term(constraint.lhs@, i1);
            let i2 = choose|i: int|
                0 <= i < explanation.lhs@.len() && #[trigger] explanation.lhs@[i] == (var, scale2);
            lemma_coefficient_of_term(explanation.lhs@, i2);
            assert(mentions(explanation.lhs@, var));
            assert(mentions(stored.lhs@, var));
        }
        if (scale1 > 0) == (scale2 > 0) {
            assert forall|outcome: IntSatOutcome| #[trigger]
                walk_ends_in(context, constraint, n as nat, outcome) implies walk_ends_in(
                context,
                start,
                length as nat,
                outcome,
            ) by {
                assert(walk_ends_in(context, current, here, outcome));
            }
            continue ;
        }
        let cut_result = apply_cut(var, &constraint, &explanation);
        let ghost cut = cut_result;
        proof {
            lemma_cut_of_equal_explanation(cut, var, &current, &explanation, &stored);
            assert forall|outcome: IntSatOutcome| #[trigger]
                walk_ends_after_cut(context, cut, n as nat, outcome) implies walk_ends_in(
                context,
                start,
                length as nat,
                outcome,
            ) by {
                assert(is_cut_of(cut, var, &current, &stored));
                assert(walk_ends_after_cut(context, cut, (here - 1) as nat, outcome));
                assert(walk_ends_in(context, current, here, outcome));
            }
        }
        let (new_constraint, skip_early_backjump) = match cut_result {
            CutResult::NothingLearned => {
                let outcome = IntSatOutcome::Fallback(FallbackReason::NothingLearned);
                assert(walk_ends_after_cut(context, cut, n as nat, outcome));
                return outcome;
            },
            CutResult::Overflow => {
                let outcome = IntSatOutcome::Fallback(FallbackReason::Overflow);
                assert(walk_ends_after_cut(context, cut, n as nat, outcome));
                return outcome;
            },
            CutResult::Contradiction => {
                proof {
                    assert forall|assignment: spec_fn(DomainId) -> int| !#[trigger]
                        context.propagators.all_hold(assignment) by {
                        if context.propagators.all_hold(assignment) {
                            assert(constraint.holds(assignment));
                            assert(explanation.holds(assignment));
                        }
                    }
                }
                let outcome = IntSatOutcome::Contradiction;
                assert(walk_ends_after_cut(context, cut, n as nat, outcome));
                return outcome;
            },
            CutResult::Success { inequality, skip_early_backjump } => (inequality, skip_early_backjump),
        };
        proof {
            assert forall|i: int| 0 <= i < new_constraint.lhs@.len() implies context.view().is_valid_domain(
                (#[trigger] new_constraint.lhs@[i]).0,
            ) by {
                let x = new_constraint.lhs@[i].0;
                assert(mentions(new_constraint.lhs@, x));
                if mentions(constraint.lhs@, x) {
                    let k = choose|k: int|
                        0 <= k < constraint.lhs@.len() && (#[trigger] constraint.lhs@[k]).0 == x;
                } else {
                    let k = choose|k: int|
                        0 <= k < explanation.lhs@.len() && (#[trigger] explanation.lhs@[k]).0 == x;
                }
            }
            assert forall|assignment: spec_fn(DomainId) -> int|
                context.propagators.all_hold(assignment) implies #[trigger] new_constraint.holds(
                assignment,
            ) by {
                assert(constraint.holds(assignment));
                assert(explanation.holds(assignment));
            }
        }
        if new_constraint.overflows_after(&context.engine.assignments_integer, n) {
            let outcome = IntSatOutcome::Fallback(FallbackReason::Overflow);
            assert(walk_ends_after_cut(context, cut, n as nat, outcome));
            return outcome;
        }
        if !new_constraint.is_conflicting_after(&context.engine.assignments_integer, n) {
            let outcome = IntSatOutcome::Fallback(FallbackReason::NotConflicting);
            assert(walk_ends_after_cut(context, cut, n as nat, outcome));
            return outcome;
        }
        constraint = new_constraint;
        if skip_early_backjump {
            assert forall|outcome: IntSatOutcome| #[trigger]
                walk_ends_in(context, constraint, n as nat, outcome) implies walk_ends_in(
                context,
                start,
                length as nat,
                outcome,
            ) by {
                assert(walk_ends_after_cut(context, cut, n as nat, outcome));
            }
            continue ;
        }
        match find_backjump_level(&constraint, context) {
            LevelScan::Overflow => {
                let outcome = IntSatOutcome::Fallback(FallbackReason::Overflow);
                assert(walk_ends_after_cut(context, cut, n as nat, outcome));
                return outcome;
            },
            LevelScan::Found(backjump_level) => {
                let ghost learned = constraint;
                let outcome = IntSatOutcome::Learned(LearnedConstraint { constraint, backjump_level });
                assert(is_learned(outcome, learned, backjump_level));
                assert(walk_ends_after_cut(context, cut, n as nat, outcome));
                return outcome;
            },
            LevelScan::Idle => {
                assert forall|outcome: IntSatOutcome| #[trigger]
                    walk_ends_in(context, constraint, n as nat, outcome) implies walk_ends_in(
                    context,
                    start,
                    length as nat,
                    outcome,
                ) by {
                    assert(walk_ends_after_cut(context, cut, n as nat, outcome));
                }
            },
        }
    }
    let outcome = IntSatOutcome::Fallback(FallbackReason::DecisionReached);
    assert(walk_ends_in(context, constraint, 0, outcome));
    outcome
}

} // verus!
