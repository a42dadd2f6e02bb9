//! The resolver that learns linear inequalities, and falls back on
//! resolution where it cannot.

use vstd::prelude::*;
use crate::engine::conflict_analysis::learned_nogood::LearnedConstraint;
use crate::propagators::linear_less_or_equal::watches;
use crate::engine::watch_list_cp::PropagatorVarId;
use crate::engine::watch_list_cp::LocalId;
use crate::engine::propagator_queue::after_enqueue;
use crate::engine::propagator_queue::PropagatorId;
use crate::engine::propagation::propagator::NUM_PRIORITY_LEVELS;
use crate::engine::conflict_analysis::resolution_resolver::processed;
use crate::basic_types::domain_events::IntDomainEvent;
use crate::basic_types::arithmetic::magnitude;
use crate::basic_types::domain_id::DomainId;
use crate::basic_types::linear_less_or_equal::LinearLessOrEqual;
use crate::basic_types::linear_terms::coefficient;
use crate::basic_types::linear_terms::lemma_distinct_variables_bound;
use crate::basic_types::linear_terms::mentions;
use crate::basic_types::predicate::Predicate;
use crate::engine::conflict_analysis::conflict_analysis_context::ConflictAnalysisContext;
use crate::engine::conflict_analysis::conflict_analysis_context::count_up;
use crate::engine::conflict_analysis::conflict_analysis_context::unsatisfiable;
use crate::engine::conflict_analysis::conflict_resolver::ConflictResolver;
use crate::engine::conflict_analysis::cut::CutResult;
use crate::engine::conflict_analysis::cut::apply_cut;
use crate::engine::conflict_analysis::cut::is_cut_of;
use crate::engine::conflict_analysis::intsat_analysis::FallbackReason;
use crate::engine::conflict_analysis::intsat_analysis::IntSatOutcome;
use crate::engine::conflict_analysis::intsat_analysis::acts_at_level;
use crate::engine::conflict_analysis::intsat_analysis::analyse_conflict;
use crate::engine::conflict_analysis::intsat_analysis::idle_at_level;
use crate::engine::conflict_analysis::intsat_analysis::is_outcome_of_analysis;
use crate::engine::conflict_analysis::learned_nogood::ConflictResolveResult;
use crate::engine::conflict_analysis::learned_nogood::LearnedNogood;
use crate::engine::conflict_analysis::learned_nogood::is_contradiction_signal;
use crate::engine::search_space::agrees;
use crate::engine::search_space::is_solution;
use crate::engine::search_space::lemma_fewer_solutions_kept;
use crate::engine::conflict_analysis::resolution_resolver::ResolutionResolver;
use crate::engine::conflict_analysis::conflict_analysis_context::IntSatStatistics;
use crate::engine::conflict_analysis::resolution_resolver::analysed;
use crate::engine::conflict_analysis::resolution_resolver::bumped;
use crate::engine::conflict_analysis::resolution_resolver::is_asserting;
use crate::engine::conflict_analysis::resolution_resolver::lemma_analysed_reads;
use crate::engine::propagation::propagator::Propagator;
use crate::propagators::linear_less_or_equal::LinearLessOrEqualPropagator;
use crate::statistics::learned_constraint_log::LearnedConstraintLogItem;

verus! {

#[derive(Debug, Default)]
pub struct IntSatConflictResolver {
    pub resolution_resolver: ResolutionResolver,
}

/// What the resolver hands out for an outcome of the analysis: the learned
/// inequality as it is, the signal for a contradiction, and for a fallback
/// what the resolution resolver learns from the conflict of `context`,
/// which is never an inequality.
pub open spec fn is_result_of(
    result: Option<ConflictResolveResult>,
    outcome: IntSatOutcome,
    context: &ConflictAnalysisContext,
) -> bool {
    match outcome {
        IntSatOutcome::Learned(learned) => result matches Some(
            ConflictResolveResult::Constraint(given),
        ) && given.constraint.lhs@ == learned.constraint.lhs@ && given.constraint.rhs
            == learned.constraint.rhs && given.backjump_level == learned.backjump_level,
        IntSatOutcome::Contradiction => result matches Some(ConflictResolveResult::Nogood(nogood))
            && is_contradiction_signal(&nogood),
        IntSatOutcome::Fallback(_) => {
            &&& !(result matches Some(ConflictResolveResult::Constraint(_)))
            &&& !(result matches Some(ConflictResolveResult::Nogood(nogood)) && is_contradiction_signal(
                &nogood,
            ))
            &&& result is Some <==> analysed(context) is Some
            &&& result matches Some(ConflictResolveResult::Nogood(nogood)) ==> nogood.predicates@
                == analysed(context)->0
        },
    }
}

/// The queues with nothing waiting.
pub open spec fn nothing_waiting() -> Seq<Seq<PropagatorId>> {
    Seq::new(NUM_PRIORITY_LEVELS as nat, |p: int| Seq::empty())
}

/// `after` is `before` with the learned inequality installed: the search
/// is back at the level of the inequality and nothing waits but the new
/// propagator, at its priority; the propagator holds the inequality, has
/// the next handle, and is registered for the events that raise the least
/// value of its left-hand side; and the log has one more entry, for it.
/// Where no handle is left, the search is back at that level, nothing
/// waits, and nothing else has changed.
pub open spec fn is_installed(
    before: &ConflictAnalysisContext,
    after: &ConflictAnalysisContext,
    learned: &LearnedConstraint,
) -> bool {
    let count = before.propagators.propagators@.len();
    let id = PropagatorId(count as u32);
    let terms = learned.constraint.lhs@;
    let entries = after.learned_constraint_log.entries();
    &&& after.search() == before.search().backtracked(learned.backjump_level)
    &&& after.conflict_info == before.conflict_info
    &&& after.counters == before.counters
    &&& after.learned_constraint_log.conflicts() == before.learned_constraint_log.conflicts()
    &&& if count < u32::MAX {
        &&& after.propagators.propagators@.len() == count + 1
        &&& after.propagators.propagators@.take(count as int) == before.propagators.propagators@
        &&& after.propagators.propagators@[count as int] is LinearLessOrEqual
        &&& after.propagators.propagators@[count as int]->LinearLessOrEqual_0.inequality.lhs@ == terms
        &&& after.propagators.propagators@[count as int]->LinearLessOrEqual_0.inequality.rhs
            == learned.constraint.rhs
        &&& after.propagators.priorities@ == before.propagators.priorities@.push(2)
        &&& after.engine.propagator_queue@ == after_enqueue(nothing_waiting(), id, 2)
        &&& after.engine.watch_list_cp.num_domains() == before.engine.watch_list_cp.num_domains()
        &&& forall|y: DomainId, event: IntDomainEvent|
            (y.id as int) < before.engine.watch_list_cp.num_domains() && (forall|i: int|
                !watches(terms, i, y, event)) ==> #[trigger] after.engine.watch_list_cp.watchers_of(
                y,
                event,
            ) == before.engine.watch_list_cp.watchers_of(y, event)
        &&& forall|y: DomainId, event: IntDomainEvent, i: int|
            (y.id as int) < before.engine.watch_list_cp.num_domains() && #[trigger] watches(
                terms,
                i,
                y,
                event,
            ) ==> #[trigger] after.engine.watch_list_cp.watchers_of(y, event)
                == before.engine.watch_list_cp.watchers_of(y, event).push(
                PropagatorVarId { propagator: id, variable: LocalId(i as u32) },
            )
        &&& entries.len() == before.learned_constraint_log.entries().len() + 1
        &&& entries.drop_last() == before.learned_constraint_log.entries()
        &&& entries.last().0 == before.learned_constraint_log.conflicts()
        &&& entries.last().1 is NewPropagator
        &&& entries.last().1->NewPropagator_propagator_id == id.0
        &&& entries.last().1->NewPropagator_learned_constraint.lhs@ == terms
        &&& entries.last().1->NewPropagator_learned_constraint.rhs == learned.constraint.rhs
    } else {
        &&& after.propagators.propagators@ == before.propagators.propagators@
        &&& after.propagators.priorities@ == before.propagators.priorities@
        &&& after.engine.propagator_queue@ == nothing_waiting()
        &&& after.engine.watch_list_cp == before.engine.watch_list_cp
        &&& entries == before.learned_constraint_log.entries()
    }
}

/// `counter + by`, or the greatest `u64` where the sum is none.
pub open spec fn summed(counter: u64, by: int) -> u64 {
    if counter + by <= u64::MAX {
        (counter + by) as u64
    } else {
        u64::MAX
    }
}

/// The greatest magnitude among the coefficients, 0 where there is none.
pub open spec fn greatest_magnitude(terms: Seq<(DomainId, i32)>) -> int
    decreases terms.len(),
{
    if terms.len() == 0 {
        0
    } else {
        let rest = greatest_magnitude(terms.drop_last());
        let own = crate::basic_types::arithmetic::abs(terms.last().1 as int);
        if own > rest {
            own
        } else {
            rest
        }
    }
}

/// The counts of the resolution resolver after it analysed the conflict
/// of `context`, starting from `counts`: one more for the variable of
/// each predicate of what it learned, and unchanged where it learned
/// nothing.
pub open spec fn counts_after_analysis(counts: Seq<u64>, context: &ConflictAnalysisContext) -> Seq<u64> {
    match analysed(context) {
        Some(predicates) => bumped(counts, predicates),
        None => counts,
    }
}

/// What the resolver writes down for an outcome of the analysis. For a
/// fallback: one more fallback is counted, and the resolution resolver
/// counts its analysis. For a contradiction: nothing. For a learned
/// inequality: one more learned inequality is counted, with its length and
/// its greatest coefficient; the resolution resolver analyses the conflict
/// too and counts that; and the inequality goes to the log, with what the
/// resolution resolver learned.
pub open spec fn is_bookkeeping_of(
    before: &ConflictAnalysisContext,
    after: &ConflictAnalysisContext,
    counts_before: Seq<u64>,
    counts_after: Seq<u64>,
    outcome: IntSatOutcome,
) -> bool {
    let statistics = before.counters.intsat_statistics;
    let entries = after.learned_constraint_log.entries();
    &&& after.counters.num_conflicts == before.counters.num_conflicts
    &&& after.learned_constraint_log.conflicts() == before.learned_constraint_log.conflicts()
    &&& match outcome {
        IntSatOutcome::Fallback(_) => {
            &&& after.counters.intsat_statistics == (IntSatStatistics {
                intsat_fallback_used: summed(statistics.intsat_fallback_used, 1),
                ..statistics
            })
            &&& entries == before.learned_constraint_log.entries()
            &&& counts_after == counts_after_analysis(counts_before, before)
        },
        IntSatOutcome::Contradiction => {
            &&& after.counters.intsat_statistics == statistics
            &&& entries == before.learned_constraint_log.entries()
            &&& counts_after == counts_before
        },
        IntSatOutcome::Learned(learned) => {
            &&& after.counters.intsat_statistics == (IntSatStatistics {
                intsat_learned_constraints: summed(statistics.intsat_learned_constraints, 1),
                intsat_learned_constraints_total_length: summed(
                    statistics.intsat_learned_constraints_total_length,
                    learned.constraint.lhs@.len() as int,
                ),
                intsat_constraint_total_max_coefficient: summed(
                    statistics.intsat_constraint_total_max_coefficient,
                    greatest_magnitude(learned.constraint.lhs@),
                ),
                ..statistics
            })
            &&& entries.len() == before.learned_constraint_log.entries().len() + 1
            &&& entries.drop_last() == before.learned_constraint_log.entries()
            &&& entries.last().0 == before.learned_constraint_log.conflicts()
            &&& entries.last().1 is ConflictResult
            &&& entries.last().1->ConflictResult_learned_constraint.lhs@ == learned.constraint.lhs@
            &&& entries.last().1->ConflictResult_learned_constraint.rhs == learned.constraint.rhs
            &&& entries.last().1->ConflictResult_learned_nogoods@ == match analysed(before) {
                Some(predicates) => predicates,
                None => Seq::empty(),
            }
            &&& counts_after == counts_after_analysis(counts_before, before)
        },
    }
}

/// Where the analysis can only end in a fallback, what `resolve_conflict`
/// ensures comes to this: the result is what the resolution resolver
/// learns, never an inequality; one more fallback is counted; nothing is
/// written to the log; and the resolution resolver has counted its
/// analysis.
pub proof fn lemma_fallback_is_resolution(
    before: &ConflictAnalysisContext,
    after: &ConflictAnalysisContext,
    counts_before: Seq<u64>,
    counts_after: Seq<u64>,
    result: Option<ConflictResolveResult>,
)
    requires
        exists|outcome: IntSatOutcome| #[trigger]
            is_outcome_of_analysis(before, outcome) && is_result_of(result, outcome, before)
                && is_bookkeeping_of(before, after, counts_before, counts_after, outcome),
        forall|outcome: IntSatOutcome| #[trigger]
            is_outcome_of_analysis(before, outcome) ==> outcome is Fallback,
    ensures
        !(result matches Some(ConflictResolveResult::Constraint(_))),
        result is Some <==> analysed(before) is Some,
        result matches Some(ConflictResolveResult::Nogood(nogood)) ==> nogood.predicates@ == analysed(
            before,
        )->0,
        after.counters.intsat_statistics.intsat_fallback_used == summed(
            before.counters.intsat_statistics.intsat_fallback_used,
            1,
        ),
        after.counters.intsat_statistics.intsat_learned_constraints
            == before.counters.intsat_statistics.intsat_learned_constraints,
        after.learned_constraint_log.entries() == before.learned_constraint_log.entries(),
        counts_after == counts_after_analysis(counts_before, before),
{
    let outcome = choose|outcome: IntSatOutcome| #[trigger]
        is_outcome_of_analysis(before, outcome) && is_result_of(result, outcome, before)
            && is_bookkeeping_of(before, after, counts_before, counts_after, outcome);
    assert(outcome is Fallback);
}

/// The greatest magnitude among the coefficients, 0 where there is none.
fn greatest_coefficient(inequality: &LinearLessOrEqual) -> (r: u64)
    ensures
        r == greatest_magnitude(inequality.lhs@),
        forall|i: int|
            0 <= i < inequality.lhs@.len() ==> crate::basic_types::arithmetic::abs(
                (#[trigger] inequality.lhs@[i]).1 as int,
            ) <= r,
        inequality.lhs@.len() == 0 ==> r == 0,
        inequality.lhs@.len() > 0 ==> exists|i: int|
            0 <= i < inequality.lhs@.len() && crate::basic_types::arithmetic::abs(
                (#[trigger] inequality.lhs@[i]).1 as int,
            ) == r,
{
    let mut greatest: u64 = 0;
    let mut i: usize = 0;
    while i < inequality.lhs.0.len()
        invariant
            i <= inequality.lhs@.len(),
            greatest == greatest_magnitude(inequality.lhs@.take(i as int)),
            forall|k: int|
                0 <= k < i ==> crate::basic_types::arithmetic::abs(
                    (#[trigger] inequality.lhs@[k]).1 as int,
                ) <= greatest,
            i == 0 ==> greatest == 0,
            i > 0 ==> exists|k: int|
                0 <= k < i && crate::basic_types::arithmetic::abs(
                    (#[trigger] inequality.lhs@[k]).1 as int,
                ) == greatest,
        decreases inequality.lhs.0.len() - i,
    {
        let size = magnitude(inequality.lhs.0[i].1);
        proof {
            assert(inequality.lhs@.take(i + 1).drop_last() =~= inequality.lhs@.take(i as int));
        }
        if size > greatest || i == 0 {
            greatest = size;
            assert(crate::basic_types::arithmetic::abs(inequality.lhs@[i as int].1 as int) == greatest);
        }
        i += 1;
    }
    proof {
        assert(inequality.lhs@.take(inequality.lhs@.len() as int) =~= inequality.lhs@);
    }
    greatest
}

impl IntSatConflictResolver {
    pub fn new() -> (r: IntSatConflictResolver)
        ensures
            r.resolution_resolver.activities@.len() == 0,
    {
        IntSatConflictResolver { resolution_resolver: ResolutionResolver::new() }
    }

    /// Counts a fallback and lets the resolution resolver analyse the
    /// conflict.
    pub fn apply_fallback(&mut self, context: &mut ConflictAnalysisContext, reason: FallbackReason) -> (r:
        Option<ConflictResolveResult>)
        requires
            old(context).wf(),
            old(context).view().decision_level > 0,
        ensures
            final(context).wf(),
            final(context).view() == old(context).view(),
            final(context).propagators == old(context).propagators,
            final(context).engine == old(context).engine,
            final(context).conflict_info == old(context).conflict_info,
            final(context).decisions == old(context).decisions,
            final(context).reason_store == old(context).reason_store,
            final(context).counters.intsat_statistics.intsat_fallback_used == if old(context).counters.intsat_statistics.intsat_fallback_used < u64::MAX {
                (old(context).counters.intsat_statistics.intsat_fallback_used + 1) as u64
            } else {
                u64::MAX
            },
            r matches Some(result) ==> result.is_valid_for(final(context)) && (
            result matches ConflictResolveResult::Nogood(nogood) && is_asserting(
                &nogood,
                final(context),
            )),
            is_result_of(r, IntSatOutcome::Fallback(reason), old(context)),
            is_bookkeeping_of(
                old(context),
                final(context),
                old(self).resolution_resolver.activities@,
                final(self).resolution_resolver.activities@,
                IntSatOutcome::Fallback(reason),
            ),
            final(context).learned_constraint_log == old(context).learned_constraint_log,
            final(context).is_completing_proof == old(context).is_completing_proof,
    {
        let ghost before = *context;
        context.counters.intsat_statistics.intsat_fallback_used = count_up(
            context.counters.intsat_statistics.intsat_fallback_used,
            1,
        );
        let r = self.resolution_resolver.resolve_conflict(context);
        let ghost given = r;
        proof {
            lemma_analysed_reads(context, &before);
            match given {
                Some(ConflictResolveResult::Nogood(nogood)) => {
                    if is_contradiction_signal(&nogood) {
                        assert(nogood.predicates@[0] == Predicate::False);
                    }
                },
                _ => {},
            }
        }
        r
    }

    /// Cancels `var` between two inequalities that hold it with opposite
    /// signs.
    pub fn apply_cut(var: DomainId, c1: &LinearLessOrEqual, c2: &LinearLessOrEqual) -> (result: CutResult)
        requires
            c1.wf(),
            c2.wf(),
            mentions(c1.lhs@, var),
            mentions(c2.lhs@, var),
            (coefficient(c1.lhs@, var) > 0) != (coefficient(c2.lhs@, var) > 0),
        ensures
            is_cut_of(result, var, c1, c2),
            result matches CutResult::Success { inequality, .. } ==> !mentions(inequality.lhs@, var)
                && coefficient(inequality.lhs@, var) == 0,
            result matches CutResult::Success { inequality, .. } ==> forall|
                assignment: spec_fn(DomainId) -> int,
            |
                c1.holds(assignment) && c2.holds(assignment) ==> #[trigger] inequality.holds(
                    assignment,
                ),
            result is Contradiction ==> forall|assignment: spec_fn(DomainId) -> int|
                !(#[trigger] c1.holds(assignment) && c2.holds(assignment)),
    {
        apply_cut(var, c1, c2)
    }
}

impl ConflictResolver for IntSatConflictResolver {
    /// Learns a linear inequality from the conflict where the analysis by
    /// cuts yields one; signals a contradiction where a cut shows that the
    /// constraints contradict each other; and otherwise leaves the conflict
    /// to the resolution resolver, which also runs, for its bookkeeping,
    /// before an inequality is handed out. A learned inequality is written
    /// to the log. A nogood that is handed out is the signal or one that
    /// the resolution resolver learned.
    fn resolve_conflict(&mut self, context: &mut ConflictAnalysisContext) -> (r: Option<
        ConflictResolveResult,
    >)
        ensures
            final(context).decisions == old(context).decisions,
            r matches Some(ConflictResolveResult::Constraint(learned)) ==> acts_at_level(
                &learned.constraint,
                final(context),
                learned.backjump_level,
            ) && forall|lower: u32|
                lower < learned.backjump_level ==> #[trigger] idle_at_level(
                    &learned.constraint,
                    final(context),
                    lower,
                ),
            r matches Some(ConflictResolveResult::Nogood(nogood)) ==> (is_contradiction_signal(&nogood)
                ==> unsatisfiable(&final(context).propagators)) && (!is_contradiction_signal(&nogood)
                ==> is_asserting(&nogood, final(context))),
            exists|outcome: IntSatOutcome| #[trigger]
                is_outcome_of_analysis(old(context), outcome) && is_result_of(r, outcome, old(context))
                    && is_bookkeeping_of(
                    old(context),
                    final(context),
                    old(self).resolution_resolver.activities@,
                    final(self).resolution_resolver.activities@,
                    outcome,
                ),
            final(context).is_completing_proof == old(context).is_completing_proof,
    {
        let outcome = analyse_conflict(context);
        let ghost analysis = outcome;
        match outcome {
            IntSatOutcome::Fallback(reason) => {
                let result = self.apply_fallback(context, reason);
                let ghost snapshot = result;
                proof {
                    match snapshot {
                        Some(ConflictResolveResult::Nogood(nogood)) => {
                            if is_contradiction_signal(&nogood) {
                                assert(nogood.predicates@[0] == Predicate::False);
                            }
                        },
                        _ => {},
                    }
                    assert(is_result_of(result, analysis, old(context)));
                    assert(is_bookkeeping_of(
                        old(context),
                        context,
                        old(self).resolution_resolver.activities@,
                        self.resolution_resolver.activities@,
                        analysis,
                    ));
                }
                result
            },
            IntSatOutcome::Contradiction => {
                let mut predicates: Vec<Predicate> = Vec::new();
                predicates.push(Predicate::trivially_false());
                assert(predicates@ =~= seq![Predicate::False]);
                proof {
                    assert forall|assignment: spec_fn(DomainId) -> int|
                        #[trigger] is_solution(
                            assignment,
                            &context.propagators,
                            context.view(),
                        ) implies !agrees(assignment, predicates@) by {
                        assert(predicates@[0] == Predicate::False);
                    }
                }
                let result = Some(
                    ConflictResolveResult::Nogood(LearnedNogood { predicates, backjump_level: 0 }),
                );
                assert(is_result_of(result, analysis, old(context)));
                assert(is_bookkeeping_of(
                    old(context),
                    context,
                    old(self).resolution_resolver.activities@,
                    self.resolution_resolver.activities@,
                    analysis,
                ));
                result
            },
            IntSatOutcome::Learned(learned) => {
                let ghost examined = *context;
                let bookkeeping = self.resolution_resolver.resolve_conflict(context);
                let learned_nogoods = match bookkeeping {
                    Some(ConflictResolveResult::Nogood(nogood)) => nogood.predicates,
                    _ => Vec::new(),
                };
                context.learned_constraint_log.log_item(
                    LearnedConstraintLogItem::ConflictResult {
                        learned_constraint: learned.constraint.duplicate(),
                        learned_nogoods,
                    },
                );
                let statistics = context.counters.intsat_statistics;
                context.counters.intsat_statistics.intsat_learned_constraints = count_up(
                    statistics.intsat_learned_constraints,
                    1,
                );
                context.counters.intsat_statistics.intsat_learned_constraints_total_length = count_up(
                    statistics.intsat_learned_constraints_total_length,
                    learned.constraint.lhs.len() as u64,
                );
                context.counters.intsat_statistics.intsat_constraint_total_max_coefficient = count_up(
                    statistics.intsat_constraint_total_max_coefficient,
                    greatest_coefficient(&learned.constraint),
                );
                proof {
                    assert(context.view() == examined.view());
                    assert(acts_at_level(&learned.constraint, &examined, learned.backjump_level));
                    assert forall|lower: u32| lower < learned.backjump_level implies #[trigger] idle_at_level(
                        &learned.constraint,
                        context,
                        lower,
                    ) by {
                        assert(idle_at_level(&learned.constraint, &examined, lower));
                    }
                    assert forall|assignment: spec_fn(DomainId) -> int|
                        context.propagators.all_hold(assignment) implies #[trigger] learned.constraint.holds(
                        assignment,
                    ) by {
                        assert(examined.propagators.all_hold(assignment));
                    }
                }
                proof {
                    let entries = context.learned_constraint_log.entries();
                    assert(entries.drop_last() =~= old(context).learned_constraint_log.entries());
                    assert(is_bookkeeping_of(
                        old(context),
                        context,
                        old(self).resolution_resolver.activities@,
                        self.resolution_resolver.activities@,
                        analysis,
                    ));
                }
                let result = Some(ConflictResolveResult::Constraint(learned));
                assert(is_result_of(result, analysis, old(context)));
                result
            },
        }
    }

    /// For a learned inequality: backjumps to its level, adds a propagator
    /// for it, registers the propagator's watches and lets it wait in the
    /// queue. For the signal of a contradiction: fails. For anything else:
    /// what the resolution resolver does.
    fn process(&mut self, context: &mut ConflictAnalysisContext, resolve_result: &Option<
        ConflictResolveResult,
    >) -> (r: Result<(), ()>)
        ensures
            resolve_result matches Some(ConflictResolveResult::Nogood(nogood)) && is_contradiction_signal(
                &nogood,
            ) ==> r is Err && final(context).view() == old(context).view(),
            resolve_result matches Some(ConflictResolveResult::Constraint(learned)) ==> r is Ok
                && final(context).view() == old(context).view().synchronise(learned.backjump_level)
                && (old(context).propagators.propagators@.len() < u32::MAX ==> final(context).propagators.propagators@.len() == old(context).propagators.propagators@.len() + 1
                && final(context).propagators.propagators@.last().explanation() is Some && final(context).propagators.propagators@.last().explanation()->0.lhs@ == learned.constraint.lhs@
                && final(context).propagators.propagators@.last().explanation()->0.rhs
                == learned.constraint.rhs),
            resolve_result matches Some(ConflictResolveResult::Constraint(learned)) ==> is_installed(
                old(context),
                final(context),
                &learned,
            ),
            resolve_result matches Some(ConflictResolveResult::Nogood(nogood)) && is_contradiction_signal(
                &nogood,
            ) ==> *final(context) == *old(context),
            !(resolve_result matches Some(ConflictResolveResult::Constraint(_))) && !(
            resolve_result matches Some(ConflictResolveResult::Nogood(nogood)) && is_contradiction_signal(
                &nogood,
            )) ==> (final(context).search(), r is Ok) == processed(old(context).search(), resolve_result)
                && final(context).propagators == old(context).propagators
                && final(context).engine.watch_list_cp == old(context).engine.watch_list_cp
                && final(context).conflict_info == old(context).conflict_info && final(context).counters
                == old(context).counters && final(context).learned_constraint_log
                == old(context).learned_constraint_log,
            final(context).is_completing_proof == old(context).is_completing_proof,
            final(self).resolution_resolver.activities == old(self).resolution_resolver.activities,
    {
        match resolve_result {
            Some(ConflictResolveResult::Constraint(learned)) => {
                let ghost before = *context;
                context.backtrack(learned.backjump_level);
                proof {
                    context.engine.assignments_integer.lemma_view_wf();
                    assert forall|p: int|
                        0 <= p < context.engine.propagator_queue@.len() implies #[trigger] context.engine.propagator_queue@[p]
                        == nothing_waiting()[p] by {
                        assert(context.engine.propagator_queue@[p] =~= Seq::<PropagatorId>::empty());
                    }
                    assert(context.engine.propagator_queue@ =~= nothing_waiting());
                    lemma_distinct_variables_bound(learned.constraint.lhs@, context.view());
                }
                let propagator = Propagator::LinearLessOrEqual(
                    LinearLessOrEqualPropagator::new_learned(learned.constraint.duplicate()),
                );
                let priority = propagator.priority();
                let ghost added = propagator;
                let ghost backtracked = *context;
                let allocated = context.propagators.add_propagator(propagator);
                match allocated {
                    Some(id) => {
                        proof {
                            assert forall|assignment: spec_fn(DomainId) -> int| #[trigger]
                                before.propagators.all_hold(assignment)
                                    <==> context.propagators.all_hold(assignment) by {
                                let old_store = before.propagators.propagators@;
                                let new_store = context.propagators.propagators@;
                                if before.propagators.all_hold(assignment) {
                                    assert(learned.constraint.holds(assignment));
                                    assert forall|i: int| 0 <= i < new_store.len() implies (
                                    #[trigger] new_store[i]).holds(assignment) by {
                                        if i < old_store.len() {
                                            assert(old_store[i].holds(assignment));
                                        }
                                    }
                                }
                                if context.propagators.all_hold(assignment) {
                                    assert forall|i: int| 0 <= i < old_store.len() implies (
                                    #[trigger] old_store[i]).holds(assignment) by {
                                        assert(new_store[i].holds(assignment));
                                    }
                                }
                            }
                        }
                        proof {
                            if backtracked.keeps_solutions() {
                                lemma_fewer_solutions_kept(
                                    &backtracked.propagators,
                                    &context.propagators,
                                    context.decisions@,
                                    context.view(),
                                );
                            }
                        }
                        context.propagators.get(id).initialise_at_root(id, &mut context.engine.watch_list_cp);
                        context.engine.propagator_queue.enqueue_propagator(id, priority);
                        context.learned_constraint_log.log_item(
                            LearnedConstraintLogItem::NewPropagator {
                                propagator_id: id.0,
                                learned_constraint: learned.constraint.duplicate(),
                            },
                        );
                        proof {
                            let entries = context.learned_constraint_log.entries();
                            assert(entries.drop_last() =~= before.learned_constraint_log.entries());
                            assert(context.propagators.propagators@.take(
                                before.propagators.propagators@.len() as int,
                            ) =~= before.propagators.propagators@);
                        }
                    },
                    None => {},
                }
                Ok(())
            },
            Some(ConflictResolveResult::Nogood(nogood)) => {
                if nogood.backjump_level == 0 && nogood.predicates.len() == 1 && nogood.predicates[0]
                    == Predicate::False {
                    assert(nogood.predicates@ =~= seq![Predicate::False]);
                    assert(is_contradiction_signal(nogood));
                    return Err(());
                }
                self.resolution_resolver.process(context, resolve_result)
            },
            None => self.resolution_resolver.process(context, resolve_result),
        }
    }
}

} // verus!
