//! Conflict analysis by resolution over predicates: the conflict is
//! explained by bounds, and the bounds inferred at the current level are
//! replaced by their own explanations, newest first, until at most one is
//! left.

use vstd::prelude::*;
use crate::basic_types::domain_id::DomainId;
use crate::basic_types::predicate::Predicate;
use crate::basic_types::stored_conflict_info::StoredConflictInfo;
use crate::engine::assignments_view::ReasonRef;
use crate::engine::assignments_view::lemma_predicate_stays;
use crate::engine::assignments_view::lemma_trail_length_at_level;
use crate::engine::conflict_analysis::conflict_analysis_context::ConflictAnalysisContext;
use crate::engine::conflict_analysis::conflict_analysis_context::SearchView;
use crate::engine::conflict_analysis::conflict_resolver::ConflictResolver;
use crate::engine::conflict_analysis::learned_nogood::ConflictResolveResult;
use crate::engine::conflict_analysis::learned_nogood::LearnedNogood;
use crate::engine::propagation::propagator::Propagator;
use crate::engine::propagator_queue::PropagatorId;
use crate::engine::reason_store::Reason;
use crate::engine::conflict_analysis::explanations::explain;
use crate::engine::conflict_analysis::explanations::explanation;
use crate::engine::conflict_analysis::explanations::leaves_no_choice;
use crate::engine::conflict_analysis::explanations::seen_violated;
use crate::engine::conflict_analysis::explanations::follows;
use crate::engine::conflict_analysis::explanations::in_reach;
use crate::engine::conflict_analysis::explanations::is_implied;
use crate::engine::conflict_analysis::explanations::is_violated_after;
use crate::engine::conflict_analysis::explanations::lemma_agrees_with_each;
use crate::engine::conflict_analysis::explanations::lemma_push_keeps;
use crate::engine::assignments_view::AssignmentsView;
use crate::engine::conflict_analysis::conflict_analysis_context::lemma_negation_is_satisfied;
use crate::engine::conflict_analysis::learned_nogood::is_contradiction_signal;
use crate::engine::search_space::agrees;
use crate::engine::search_space::agrees_below;
use crate::engine::search_space::lemma_level_before_bound;
use crate::engine::search_space::lemma_within_at_prefix;
use crate::engine::search_space::lemma_within_is_within_at_end;
use crate::engine::solutions::within;
use crate::engine::search_space::is_solution;
use crate::engine::search_space::level_before;
use crate::engine::search_space::nogood_is_sound;
use crate::engine::search_space::satisfies;
use crate::engine::search_space::within_at;

verus! {

/// Learns nogoods, and counts for every variable how often it took part in
/// an analysis.
#[derive(Debug, Default)]
pub struct ResolutionResolver {
    /// The activity of each variable, under its number.
    pub activities: Vec<u64>,
}

/// Every predicate is a bound on a variable of the store and holds in the
/// current domains.
pub open spec fn all_hold_now(predicates: Seq<Predicate>, context: &ConflictAnalysisContext) -> bool {
    forall|i: int|
        0 <= i < predicates.len() ==> ((#[trigger] predicates[i]).domain() matches Some(x)
            ==> context.view().is_valid_domain(x)) && context.view().predicate_holds_at(
            predicates[i],
            context.view().trail.len(),
        ) && (predicates[i] is LowerBound || predicates[i] is UpperBound)
}

/// Propagator `id`, where there is such a propagator.
fn propagator_of(context: &ConflictAnalysisContext, id: PropagatorId) -> (r: Option<&Propagator>)
    requires
        context.wf(),
    ensures
        r is Some <==> (id.0 as int) < context.propagators.propagators@.len(),
        r is Some ==> context.propagators.propagators@[id.0 as int] == *r->0 && r->0.wf(
            context.view(),
        ),
{
    if (id.0 as usize) >= context.propagators.num_propagators() {
        return None;
    }
    assert(context.propagators.propagators@[id.0 as int].wf(context.view()));
    Some(context.propagators.get(id))
}

/// A predicate that is true of every value left in the domain of its
/// variable is true under an assignment within the domains.
pub proof fn lemma_holding_is_satisfied(
    assignment: spec_fn(DomainId) -> int,
    s: AssignmentsView,
    predicate: Predicate,
)
    requires
        predicate.domain() is Some ==> s.is_valid_domain(predicate.domain()->0),
        within(assignment, s),
        s.predicate_holds(predicate),
    ensures
        satisfies(assignment, predicate),
{
    if predicate.domain() is Some {
        let x = predicate.domain()->0;
        assert(s.contains(x, assignment(x)));
    }
}

/// The counts, with zeros added where they do not reach as far as
/// `index`.
pub open spec fn reaching(activities: Seq<u64>, index: nat) -> Seq<u64> {
    if index < activities.len() {
        activities
    } else {
        activities + Seq::new((index + 1 - activities.len()) as nat, |k: int| 0u64)
    }
}

/// The counts with one more for the variable of `predicate`, unless that
/// count is the greatest `u64` already.
pub open spec fn counted(activities: Seq<u64>, predicate: Predicate) -> Seq<u64> {
    match predicate.domain() {
        Some(x) => {
            let reached = reaching(activities, x.id as nat);
            if reached[x.id as int] < u64::MAX {
                reached.update(x.id as int, (reached[x.id as int] + 1) as u64)
            } else {
                reached
            }
        },
        None => activities,
    }
}

/// The counts with one more for the variable of each predicate.
pub open spec fn bumped(activities: Seq<u64>, predicates: Seq<Predicate>) -> Seq<u64>
    decreases predicates.len(),
{
    if predicates.len() == 0 {
        activities
    } else {
        counted(bumped(activities, predicates.drop_last()), predicates.last())
    }
}

/// Whether `predicate` is among `predicates`.
fn is_among(predicates: &Vec<Predicate>, predicate: Predicate) -> (r: bool)
    ensures
        r == predicates@.contains(predicate),
{
    let mut i: usize = 0;
    while i < predicates.len()
        invariant
            i <= predicates@.len(),
            forall|k: int| 0 <= k < i ==> predicates@[k] != predicate,
        decreases predicates.len() - i,
    {
        if predicates[i] == predicate {
            return true;
        }
        i += 1;
    }
    false
}

/// The number of predicates that did not yet hold after the first `n`
/// trail entries.
pub open spec fn not_holding(predicates: Seq<Predicate>, s: AssignmentsView, n: nat) -> nat
    decreases predicates.len(),
{
    if predicates.len() == 0 {
        0
    } else {
        not_holding(predicates.drop_last(), s, n) + if s.predicate_holds_at(predicates.last(), n) {
            0nat
        } else {
            1nat
        }
    }
}

/// Every predicate that held after the first `n` trail entries held at the
/// end of `level` already.
pub open spec fn held_by_level(predicates: Seq<Predicate>, s: AssignmentsView, n: nat, level: u32) -> bool {
    forall|i: int|
        0 <= i < predicates.len() && s.predicate_holds_at(#[trigger] predicates[i], n)
            ==> s.predicate_holds_at(predicates[i], s.trail_length_at_level(level))
}

/// What is learned from a conflict by resolution: bounds that hold now but
/// not at the root level, at most one of which did not hold before the
/// current level began, and the lowest level at whose end all the others
/// held. No solution makes all of them true, provided the domains kept the
/// solutions.
pub open spec fn is_asserting(nogood: &LearnedNogood, context: &ConflictAnalysisContext) -> bool {
    let s = context.view();
    let level_start = s.trail_length_at_level((s.decision_level - 1) as u32);
    &&& nogood.backjump_level < s.decision_level
    &&& all_hold_now(nogood.predicates@, context)
    &&& context.keeps_solutions() ==> nogood_is_sound(&context.propagators, s, nogood.predicates@)
    &&& forall|i: int|
        0 <= i < nogood.predicates@.len() ==> !s.predicate_holds_at(
            #[trigger] nogood.predicates@[i],
            s.trail_length_at_level(0),
        )
    &&& not_holding(nogood.predicates@, s, level_start) <= 1
    &&& held_by_level(nogood.predicates@, s, level_start, nogood.backjump_level)
    &&& forall|lower: u32|
        lower < nogood.backjump_level ==> !#[trigger] held_by_level(
            nogood.predicates@,
            s,
            level_start,
            lower,
        )
}

/// Trail entry `n - 1`, which is on `variable`, made `predicate` hold.
pub open spec fn made_to_hold(s: AssignmentsView, predicate: Predicate, n: nat, variable: Option<DomainId>) -> bool {
    &&& variable is Some
    &&& predicate.domain() == variable
    &&& s.predicate_holds_at(predicate, n)
    &&& !s.predicate_holds_at(predicate, (n - 1) as nat)
}

/// The predicates that trail entry `n - 1` did not make hold, in their
/// order, each once.
pub open spec fn kept_part(nogood: Seq<Predicate>, s: AssignmentsView, n: nat, variable: Option<DomainId>) -> Seq<
    Predicate,
>
    decreases nogood.len(),
{
    if nogood.len() == 0 {
        Seq::empty()
    } else {
        let before = kept_part(nogood.drop_last(), s, n, variable);
        if made_to_hold(s, nogood.last(), n, variable) || before.contains(nogood.last()) {
            before
        } else {
            before.push(nogood.last())
        }
    }
}

/// The predicates that trail entry `n - 1` made hold, in their order.
pub open spec fn replaced_part(
    nogood: Seq<Predicate>,
    s: AssignmentsView,
    n: nat,
    variable: Option<DomainId>,
) -> Seq<Predicate>
    decreases nogood.len(),
{
    if nogood.len() == 0 {
        Seq::empty()
    } else {
        let before = replaced_part(nogood.drop_last(), s, n, variable);
        if made_to_hold(s, nogood.last(), n, variable) {
            before.push(nogood.last())
        } else {
            before
        }
    }
}

/// `onto`, and behind it those of `added` that are not there yet, in their
/// order.
pub open spec fn merged(onto: Seq<Predicate>, added: Seq<Predicate>) -> Seq<Predicate>
    decreases added.len(),
{
    if added.len() == 0 {
        onto
    } else {
        let before = merged(onto, added.drop_last());
        if before.contains(added.last()) {
            before
        } else {
            before.push(added.last())
        }
    }
}

/// The propagator that gave `reason`, where the reason names one.
pub open spec fn propagator_behind(context: &ConflictAnalysisContext, reason: Option<ReasonRef>) -> Option<
    Propagator,
> {
    match reason {
        Some(reference) => if (reference.0 as int) < context.reason_store.reasons().len() {
            match context.reason_store.reasons()[reference.0 as int].propagator() {
                Some(id) => if (id.0 as int) < context.propagators.propagators@.len() {
                    Some(context.propagators.propagators@[id.0 as int])
                } else {
                    None
                },
                None => None,
            }
        } else {
            None
        },
        None => None,
    }
}

/// One step of resolution, on trail entry `n - 1`, which is on `variable`
/// and has the reason `reason`. Where the entry made no predicate of the
/// nogood hold, the nogood stays, each predicate once. Else the
/// predicates that it made hold give way to the bounds by which the
/// propagator behind the entry explains it, provided the propagator is
/// seen to imply each of them from those bounds; there is no result where
/// no propagator is behind the entry, or it is not seen to.
pub open spec fn resolved(
    context: &ConflictAnalysisContext,
    nogood: Seq<Predicate>,
    n: nat,
    variable: Option<DomainId>,
    reason: Option<ReasonRef>,
) -> Option<Seq<Predicate>> {
    let s = context.view();
    let kept = kept_part(nogood, s, n, variable);
    let replaced = replaced_part(nogood, s, n, variable);
    if replaced.len() == 0 {
        Some(kept)
    } else {
        match propagator_behind(context, reason) {
            Some(propagator) => if forall|k: int|
                0 <= k < replaced.len() ==> leaves_no_choice(
                    &propagator,
                    s,
                    (n - 1) as nat,
                    #[trigger] replaced[k],
                ) {
                Some(merged(kept, explanation(&propagator, s, (n - 1) as nat, variable)))
            } else {
                None
            },
            None => None,
        }
    }
}

/// The nogood that resolution ends with, going back from trail entry
/// `n - 1`: it stops at the first entry of the current level, or as soon
/// as at most one predicate did not hold before that level began, or where
/// a step has no result.
pub open spec fn walked(context: &ConflictAnalysisContext, nogood: Seq<Predicate>, n: nat, level_start: nat) -> Seq<
    Predicate,
>
    decreases n,
{
    let s = context.view();
    if n <= level_start || not_holding(nogood, s, level_start) <= 1 {
        nogood
    } else {
        match resolved(context, nogood, n, s.trail[n - 1].predicate.domain(), s.trail[n - 1].reason) {
            Some(next) => walked(context, next, (n - 1) as nat, level_start),
            None => nogood,
        }
    }
}

/// The predicates that did not hold at the root level, in their order.
pub open spec fn rootless(nogood: Seq<Predicate>, s: AssignmentsView) -> Seq<Predicate>
    decreases nogood.len(),
{
    if nogood.len() == 0 {
        Seq::empty()
    } else if s.predicate_holds_at(nogood.last(), s.trail_length_at_level(0)) {
        rootless(nogood.drop_last(), s)
    } else {
        rootless(nogood.drop_last(), s).push(nogood.last())
    }
}

/// The predicates of the nogood that resolution learns from the conflict
/// that `context` records: those left, without what held at the root
/// level, when resolution has gone back from the end of the trail,
/// starting with the bounds by which the propagator in conflict explains
/// the conflict. There is none where the conflict is not that of a
/// propagator whose constraint is seen to fail whatever values are left,
/// or where more than one predicate is left that did not hold before the
/// current level began.
pub open spec fn analysed(context: &ConflictAnalysisContext) -> Option<Seq<Predicate>> {
    let s = context.view();
    let level_start = s.trail_length_at_level((s.decision_level - 1) as u32);
    match context.conflict_info {
        StoredConflictInfo::Propagator { propagator_id } => if (propagator_id.0 as int)
            < context.propagators.propagators@.len() && seen_violated(
            &context.propagators.propagators@[propagator_id.0 as int],
            s,
            s.trail.len(),
        ) {
            let learned = rootless(
                walked(
                    context,
                    explanation(
                        &context.propagators.propagators@[propagator_id.0 as int],
                        s,
                        s.trail.len(),
                        None,
                    ),
                    s.trail.len(),
                    level_start,
                ),
                s,
            );
            if not_holding(learned, s, level_start) <= 1 {
                Some(learned)
            } else {
                None
            }
        } else {
            None
        },
        _ => None,
    }
}

/// Two states agree in what the analysis reads: the domain store, the
/// constraints, the reasons and the conflict.
pub open spec fn same_for_analysis(a: &ConflictAnalysisContext, b: &ConflictAnalysisContext) -> bool {
    &&& a.view() == b.view()
    &&& a.propagators.propagators@ == b.propagators.propagators@
    &&& a.reason_store.reasons() == b.reason_store.reasons()
    &&& a.conflict_info == b.conflict_info
}

/// Resolution goes the same way in two states that agree in what the
/// analysis reads.
pub proof fn lemma_walked_reads(
    a: &ConflictAnalysisContext,
    b: &ConflictAnalysisContext,
    nogood: Seq<Predicate>,
    n: nat,
    level_start: nat,
)
    requires
        same_for_analysis(a, b),
    ensures
        walked(a, nogood, n, level_start) == walked(b, nogood, n, level_start),
    decreases n,
{
    let s = a.view();
    if !(n <= level_start || not_holding(nogood, s, level_start) <= 1) {
        let variable = s.trail[n - 1].predicate.domain();
        let reason = s.trail[n - 1].reason;
        assert(propagator_behind(a, reason) == propagator_behind(b, reason));
        assert(resolved(a, nogood, n, variable, reason) == resolved(b, nogood, n, variable, reason));
        match resolved(a, nogood, n, variable, reason) {
            Some(next) => {
                lemma_walked_reads(a, b, next, (n - 1) as nat, level_start);
            },
            None => {},
        }
    }
}

/// The analysis learns the same in two states that agree in what it reads.
pub proof fn lemma_analysed_reads(a: &ConflictAnalysisContext, b: &ConflictAnalysisContext)
    requires
        same_for_analysis(a, b),
    ensures
        analysed(a) == analysed(b),
{
    let s = a.view();
    let level_start = s.trail_length_at_level((s.decision_level - 1) as u32);
    match a.conflict_info {
        StoredConflictInfo::Propagator { propagator_id } => {
            if (propagator_id.0 as int) < a.propagators.propagators@.len() {
                lemma_walked_reads(
                    a,
                    b,
                    explanation(
                        &a.propagators.propagators@[propagator_id.0 as int],
                        s,
                        s.trail.len(),
                        None,
                    ),
                    s.trail.len(),
                    level_start,
                );
            }
        },
        _ => {},
    }
}

/// The predicates that do not hold in the domains, in their order.
pub open spec fn failing_part(predicates: Seq<Predicate>, s: AssignmentsView) -> Seq<Predicate>
    decreases predicates.len(),
{
    if predicates.len() == 0 {
        Seq::empty()
    } else if s.predicate_holds(predicates.last()) {
        failing_part(predicates.drop_last(), s)
    } else {
        failing_part(predicates.drop_last(), s).push(predicates.last())
    }
}

/// What becomes of the search, and whether it can go on, when the result
/// of an analysis is acted on. With a nogood: back at its level, where
/// exactly one of its predicates does not hold, the negation of that one
/// is posted, and where that cannot hold, the last decision is undone;
/// where all hold, the last decision is undone; where several do not
/// hold, nothing more is done. Without a nogood the last decision is
/// undone.
pub open spec fn processed(before: SearchView, resolve_result: &Option<ConflictResolveResult>) -> (
    SearchView,
    bool,
) {
    match resolve_result {
        Some(ConflictResolveResult::Nogood(nogood)) => {
            let back = before.backtracked(nogood.backjump_level);
            let failing = failing_part(nogood.predicates@, back.store);
            if failing.len() == 1 {
                let turned = back.posted(failing[0].negation());
                if turned.1 {
                    turned
                } else {
                    turned.0.undone()
                }
            } else if failing.len() == 0 {
                back.undone()
            } else {
                (back, true)
            }
        },
        _ => before.undone(),
    }
}

/// The number of predicates that did not yet hold after the first `n`
/// trail entries.
fn count_not_holding(context: &ConflictAnalysisContext, predicates: &Vec<Predicate>, n: usize) -> (r:
    usize)
    requires
        context.wf(),
        n <= context.view().trail.len(),
        forall|i: int|
            0 <= i < predicates@.len() ==> ((#[trigger] predicates@[i]).domain() matches Some(x)
                ==> context.view().is_valid_domain(x)),
    ensures
        r == not_holding(predicates@, context.view(), n as nat),
{
    let mut count: usize = 0;
    let mut i: usize = 0;
    while i < predicates.len()
        invariant
            context.wf(),
            n <= context.view().trail.len(),
            forall|i: int|
                0 <= i < predicates@.len() ==> ((#[trigger] predicates@[i]).domain() matches Some(x)
                    ==> context.view().is_valid_domain(x)),
            i <= predicates@.len(),
            count <= i,
            count == not_holding(predicates@.take(i as int), context.view(), n as nat),
        decreases predicates.len() - i,
    {
        let predicate = predicates[i];
        proof {
            assert(predicates@.take(i + 1).drop_last() =~= predicates@.take(i as int));
        }
        if !context.engine.assignments_integer.does_predicate_hold_after(&predicate, n) {
            count += 1;
        }
        i += 1;
    }
    proof {
        assert(predicates@.take(predicates@.len() as int) =~= predicates@);
    }
    count
}

impl ResolutionResolver {
    pub fn new() -> (r: ResolutionResolver)
        ensures
            r.activities@.len() == 0,
    {
        ResolutionResolver { activities: Vec::new() }
    }

    /// How often `variable` took part in an analysis.
    pub fn activity(&self, variable: DomainId) -> (r: u64)
        ensures
            r == if (variable.id as int) < self.activities@.len() {
                self.activities@[variable.id as int]
            } else {
                0
            },
    {
        if (variable.id as usize) < self.activities.len() {
            self.activities[variable.id as usize]
        } else {
            0
        }
    }

    /// Counts one more analysis for the variable of each predicate, a
    /// variable that occurs twice being counted twice. The counts reach as
    /// far as the greatest variable counted.
    fn bump_activities(&mut self, predicates: &Vec<Predicate>)
        ensures
            final(self).activities@ == bumped(old(self).activities@, predicates@),
    {
        let mut i: usize = 0;
        while i < predicates.len()
            invariant
                i <= predicates@.len(),
                self.activities@ == bumped(old(self).activities@, predicates@.take(i as int)),
            decreases predicates.len() - i,
        {
            proof {
                assert(predicates@.take(i + 1).drop_last() =~= predicates@.take(i as int));
            }
            let ghost before = self.activities@;
            match predicates[i].get_domain() {
                Some(variable) => {
                    let index = variable.id as usize;
                    while self.activities.len() <= index
                        invariant
                            self.activities@.len() >= before.len(),
                            self.activities@.len() <= before.len() || self.activities@.len() <= index + 1,
                            forall|k: int| 0 <= k < before.len() ==> self.activities@[k] == before[k],
                            forall|k: int| before.len() <= k < self.activities@.len() ==> self.activities@[k] == 0,
                        decreases index + 1 - self.activities@.len(),
                    {
                        self.activities.push(0);
                    }
                    assert(self.activities@ =~= reaching(before, index as nat));
                    let current = self.activities[index];
                    if current < u64::MAX {
                        self.activities.set(index, current + 1);
                    }
                    assert(self.activities@ =~= counted(before, predicates@[i as int]));
                },
                None => {},
            }
            i += 1;
        }
        proof {
            assert(predicates@.take(predicates@.len() as int) =~= predicates@);
        }
    }

    /// The nogood behind the conflict: `None` where the constraint in
    /// conflict is not seen to fail whatever values are left, or where,
    /// after resolving as far as the explanations go, more than one bound
    /// of the current level is left. No solution
    /// makes all predicates of the nogood true, provided the domains kept
    /// the solutions.
    pub fn analyse(&self, context: &ConflictAnalysisContext) -> (r: Option<LearnedNogood>)
        requires
            context.wf(),
            context.view().decision_level > 0,
        ensures
            r is Some <==> analysed(context) is Some,
            r matches Some(nogood) ==> nogood.predicates@ == analysed(context)->0 && is_asserting(
                &nogood,
                context,
            ),
    {
        let length = context.engine.assignments_integer.num_trail_entries();
        let current_level = context.engine.assignments_integer.get_decision_level();
        let level_start = context.engine.assignments_integer.get_trail_length_at_level(current_level - 1);
        proof {
            context.engine.assignments_integer.lemma_view_wf();
            lemma_trail_length_at_level(context.view(), (current_level - 1) as u32);
        }
        let mut nogood = match context.conflict_info {
            StoredConflictInfo::Propagator { propagator_id } => match propagator_of(
                context,
                propagator_id,
            ) {
                Some(propagator) => {
                    if !is_violated_after(propagator, &context.engine.assignments_integer, length) {
                        return None;
                    }
                    let predicates = explain(
                        propagator,
                        &context.engine.assignments_integer,
                        length,
                        None,
                    );
                    proof {
                        assert forall|assignment: spec_fn(DomainId) -> int|
                            #[trigger] is_solution(
                                assignment,
                                &context.propagators,
                                context.view(),
                            ) implies !agrees(assignment, predicates@) by {
                            if agrees(assignment, predicates@) {
                                assert(context.propagators.propagators@[propagator_id.0 as int].holds(
                                    assignment,
                                ));
                            }
                        }
                    }
                    predicates
                },
                None => {
                    return None;
                },
            },
            _ => {
                return None;
            },
        };
        let ghost first = nogood@;
        let mut n = length;
        while n > level_start
            invariant_except_break
                walked(context, nogood@, n as nat, level_start as nat) == walked(
                    context,
                    first,
                    length as nat,
                    level_start as nat,
                ),
            invariant
                context.wf(),
                length == context.view().trail.len(),
                level_start <= n <= length,
                all_hold_now(nogood@, context),
                nogood_is_sound(&context.propagators, context.view(), nogood@),
            ensures
                nogood@ == walked(context, first, length as nat, level_start as nat),
            decreases n,
        {
            if count_not_holding(context, &nogood, level_start) <= 1 {
                break ;
            }
            let entry = context.engine.assignments_integer.get_trail_entry(n - 1);
            let resolved = self.resolve_entry(context, &nogood, n, entry.predicate.get_domain(), entry.reason);
            match resolved {
                Some(predicates) => {
                    nogood = predicates;
                },
                None => {
                    break ;
                },
            }
            n -= 1;
        }
        let nogood = self.without_root_facts(context, &nogood);
        if count_not_holding(context, &nogood, level_start) > 1 {
            return None;
        }
        let backjump_level = self.backjump_level_of(context, &nogood);
        Some(LearnedNogood { predicates: nogood, backjump_level })
    }

    /// The nogood with the predicates that trail entry `n - 1` made hold
    /// replaced by the bounds that explain that entry; unchanged where the
    /// entry made none of them hold; `None` where it made one hold that the
    /// constraint behind the entry is not seen to imply from those bounds.
    fn resolve_entry(
        &self,
        context: &ConflictAnalysisContext,
        nogood: &Vec<Predicate>,
        n: usize,
        variable: Option<DomainId>,
        reason: Option<ReasonRef>,
    ) -> (r: Option<Vec<Predicate>>)
        requires
            context.wf(),
            0 < n <= context.view().trail.len(),
            all_hold_now(nogood@, context),
            nogood_is_sound(&context.propagators, context.view(), nogood@),
        ensures
            r is Some <==> resolved(context, nogood@, n as nat, variable, reason) is Some,
            r matches Some(predicates) ==> predicates@ == resolved(
                context,
                nogood@,
                n as nat,
                variable,
                reason,
            )->0 && all_hold_now(predicates@, context) && nogood_is_sound(
                &context.propagators,
                context.view(),
                predicates@,
            ),
    {
        let mut kept: Vec<Predicate> = Vec::new();
        let mut replaced: Vec<Predicate> = Vec::new();
        let mut i: usize = 0;
        while i < nogood.len()
            invariant
                context.wf(),
                0 < n <= context.view().trail.len(),
                all_hold_now(nogood@, context),
                all_hold_now(kept@, context),
                i <= nogood@.len(),
                kept@ == kept_part(nogood@.take(i as int), context.view(), n as nat, variable),
                replaced@ == replaced_part(nogood@.take(i as int), context.view(), n as nat, variable),
                forall|k: int|
                    0 <= k < i ==> kept@.contains(#[trigger] nogood@[k]) || replaced@.contains(
                        nogood@[k],
                    ),
                forall|k: int|
                    0 <= k < replaced@.len() ==> (#[trigger] replaced@[k]).domain() == variable,
            decreases nogood.len() - i,
        {
            let predicate = nogood[i];
            assert(all_hold_now(nogood@, context));
            assert(context.view().predicate_holds_at(nogood@[i as int], context.view().trail.len()));
            proof {
                assert(nogood@.take(i + 1).drop_last() =~= nogood@.take(i as int));
            }
            let implied_here = predicate.get_domain() == variable && variable.is_some()
                && context.engine.assignments_integer.does_predicate_hold_after(&predicate, n)
                && !context.engine.assignments_integer.does_predicate_hold_after(&predicate, n - 1);
            let ghost kept_before = kept@;
            let ghost replaced_before = replaced@;
            if implied_here {
                replaced.push(predicate);
            } else if !is_among(&kept, predicate) {
                kept.push(predicate);
            }
            proof {
                assert forall|k: int| 0 <= k < i + 1 implies kept@.contains(#[trigger] nogood@[k])
                    || replaced@.contains(nogood@[k]) by {
                    if kept@ != kept_before {
                        if kept_before.contains(nogood@[k]) || nogood@[k] == predicate {
                            lemma_push_keeps(kept_before, predicate, nogood@[k]);
                        }
                    }
                    if replaced@ != replaced_before {
                        if replaced_before.contains(nogood@[k]) || nogood@[k] == predicate {
                            lemma_push_keeps(replaced_before, predicate, nogood@[k]);
                        }
                    }
                }
            }
            i += 1;
        }
        proof {
            assert(nogood@.take(nogood@.len() as int) =~= nogood@);
        }
        if replaced.len() == 0 {
            proof {
                assert forall|assignment: spec_fn(DomainId) -> int|
                    #[trigger] is_solution(
                        assignment,
                        &context.propagators,
                        context.view(),
                    ) implies !agrees(assignment, kept@) by {
                    if agrees(assignment, kept@) {
                        assert forall|k: int| 0 <= k < nogood@.len() implies satisfies(
                            assignment,
                            #[trigger] nogood@[k],
                        ) by {
                            lemma_agrees_with_each(assignment, kept@, nogood@[k]);
                        }
                    }
                }
            }
            return Some(kept);
        }
        let id = match reason {
            None => {
                return None;
            },
            Some(reference) => match context.reason_store.get_propagator(reference) {
                None => {
                    return None;
                },
                Some(id) => id,
            },
        };
        let propagator = match propagator_of(context, id) {
            Some(propagator) => propagator,
            None => {
                return None;
            },
        };
        let mut j: usize = 0;
        while j < replaced.len()
            invariant
                context.wf(),
                0 < n <= context.view().trail.len(),
                propagator.wf(context.view()),
                j <= replaced@.len(),
                replaced@ == replaced_part(nogood@, context.view(), n as nat, variable),
                propagator_behind(context, reason) == Some(*propagator),
                forall|k: int|
                    0 <= k < j ==> follows(
                        propagator,
                        context.view(),
                        (n - 1) as nat,
                        #[trigger] replaced@[k],
                    ),
                forall|k: int|
                    0 <= k < j ==> leaves_no_choice(
                        propagator,
                        context.view(),
                        (n - 1) as nat,
                        #[trigger] replaced@[k],
                    ),
            decreases replaced.len() - j,
        {
            if !is_implied(propagator, &context.engine.assignments_integer, n - 1, replaced[j]) {
                assert(!leaves_no_choice(
                    propagator,
                    context.view(),
                    (n - 1) as nat,
                    replaced@[j as int],
                ));
                return None;
            }
            j += 1;
        }
        let given = explain(propagator, &context.engine.assignments_integer, n - 1, variable);
        let ghost kept_first = kept@;
        let mut k: usize = 0;
        while k < given.len()
            invariant
                context.wf(),
                0 < n <= context.view().trail.len(),
                all_hold_now(kept@, context),
                k <= given@.len(),
                forall|i: int|
                    0 <= i < given@.len() ==> (#[trigger] given@[i]).domain() is Some
                        && context.view().is_valid_domain(given@[i].domain()->0)
                        && context.view().predicate_holds_at(given@[i], (n - 1) as nat) && (
                    given@[i] is LowerBound || given@[i] is UpperBound),
                forall|predicate: Predicate|
                    kept_first.contains(predicate) ==> #[trigger] kept@.contains(predicate),
                forall|i: int| 0 <= i < k ==> kept@.contains(#[trigger] given@[i]),
                kept@ == merged(kept_first, given@.take(k as int)),
                kept_first == kept_part(nogood@, context.view(), n as nat, variable),
                replaced@ == replaced_part(nogood@, context.view(), n as nat, variable),
                replaced@.len() > 0,
                propagator_behind(context, reason) == Some(*propagator),
                given@ == explanation(propagator, context.view(), (n - 1) as nat, variable),
                forall|i: int|
                    0 <= i < replaced@.len() ==> leaves_no_choice(
                        propagator,
                        context.view(),
                        (n - 1) as nat,
                        #[trigger] replaced@[i],
                    ),
            decreases given.len() - k,
        {
            proof {
                assert(given@.take(k + 1).drop_last() =~= given@.take(k as int));
            }
            let predicate = given[k];
            if !is_among(&kept, predicate) {
                proof {
                    context.engine.assignments_integer.lemma_view_wf();
                    lemma_predicate_stays(
                        context.view(),
                        predicate,
                        (n - 1) as nat,
                        context.view().trail.len(),
                    );
                }
                let ghost kept_before = kept@;
                kept.push(predicate);
                proof {
                    assert forall|other: Predicate| kept_first.contains(other) implies #[trigger] kept@.contains(
                        other,
                    ) by {
                        lemma_push_keeps(kept_before, predicate, other);
                    }
                    assert forall|i: int| 0 <= i < k + 1 implies kept@.contains(
                        #[trigger] given@[i],
                    ) by {
                        lemma_push_keeps(kept_before, predicate, given@[i]);
                    }
                }
            }
            k += 1;
        }
        proof {
            assert(given@.take(given@.len() as int) =~= given@);
            assert forall|assignment: spec_fn(DomainId) -> int|
                #[trigger] is_solution(
                    assignment,
                    &context.propagators,
                    context.view(),
                ) implies !agrees(assignment, kept@) by {
                if agrees(assignment, kept@) {
                    assert(context.propagators.propagators@[id.0 as int].holds(assignment));
                    assert forall|i: int| 0 <= i < given@.len() implies satisfies(
                        assignment,
                        #[trigger] given@[i],
                    ) by {
                        lemma_agrees_with_each(assignment, kept@, given@[i]);
                    }
                    assert(agrees(assignment, given@));
                    assert(in_reach(
                        assignment,
                        propagator,
                        context.view(),
                        (n - 1) as nat,
                        variable,
                    ));
                    assert forall|k: int| 0 <= k < nogood@.len() implies satisfies(
                        assignment,
                        #[trigger] nogood@[k],
                    ) by {
                        if kept_first.contains(nogood@[k]) {
                            assert(kept@.contains(nogood@[k]));
                            lemma_agrees_with_each(assignment, kept@, nogood@[k]);
                        } else {
                            assert(replaced@.contains(nogood@[k]));
                            let at = choose|at: int|
                                0 <= at < replaced@.len() && replaced@[at] == nogood@[k];
                            assert(follows(
                                propagator,
                                context.view(),
                                (n - 1) as nat,
                                replaced@[at],
                            ));
                            assert(replaced@[at].domain() == variable);
                        }
                    }
                }
            }
        }
        Some(kept)
    }

    /// The predicates that do not hold at the root level already.
    fn without_root_facts(&self, context: &ConflictAnalysisContext, nogood: &Vec<Predicate>) -> (r: Vec<
        Predicate,
    >)
        requires
            context.wf(),
            all_hold_now(nogood@, context),
        ensures
            all_hold_now(r@, context),
            forall|i: int|
                0 <= i < r@.len() ==> nogood@.contains(#[trigger] r@[i]) && !context.view().predicate_holds_at(
                    r@[i],
                    context.view().trail_length_at_level(0),
                ),
            forall|i: int|
                0 <= i < nogood@.len() ==> r@.contains(#[trigger] nogood@[i])
                    || context.view().predicate_holds_at(
                    nogood@[i],
                    context.view().trail_length_at_level(0),
                ),
            context.keeps_solutions() && nogood_is_sound(
                &context.propagators,
                context.view(),
                nogood@,
            ) ==> nogood_is_sound(&context.propagators, context.view(), r@),
            r@ == rootless(nogood@, context.view()),
    {
        let root_length = context.engine.assignments_integer.get_trail_length_at_level(0);
        proof {
            context.engine.assignments_integer.lemma_view_wf();
            lemma_trail_length_at_level(context.view(), 0);
        }
        let mut kept: Vec<Predicate> = Vec::new();
        let mut i: usize = 0;
        while i < nogood.len()
            invariant
                context.wf(),
                root_length == context.view().trail_length_at_level(0),
                root_length <= context.view().trail.len(),
                all_hold_now(nogood@, context),
                all_hold_now(kept@, context),
                i <= nogood@.len(),
                forall|k: int|
                    0 <= k < kept@.len() ==> nogood@.contains(#[trigger] kept@[k])
                        && !context.view().predicate_holds_at(kept@[k], root_length as nat),
                forall|k: int|
                    0 <= k < i ==> kept@.contains(#[trigger] nogood@[k])
                        || context.view().predicate_holds_at(nogood@[k], root_length as nat),
                kept@ == rootless(nogood@.take(i as int), context.view()),
            decreases nogood.len() - i,
        {
            let predicate = nogood[i];
            proof {
                assert(nogood@.take(i + 1).drop_last() =~= nogood@.take(i as int));
            }
            assert(context.view().predicate_holds_at(nogood@[i as int], context.view().trail.len()));
            if !context.engine.assignments_integer.does_predicate_hold_after(&predicate, root_length) {
                let ghost kept_before = kept@;
                kept.push(predicate);
                proof {
                    assert forall|k: int| 0 <= k < i + 1 implies kept@.contains(#[trigger] nogood@[k])
                        || context.view().predicate_holds_at(nogood@[k], root_length as nat) by {
                        if kept_before.contains(nogood@[k]) || nogood@[k] == predicate {
                            lemma_push_keeps(kept_before, predicate, nogood@[k]);
                        }
                    }
                }
            }
            i += 1;
        }
        proof {
            assert(nogood@.take(nogood@.len() as int) =~= nogood@);
            if context.keeps_solutions() && nogood_is_sound(
                &context.propagators,
                context.view(),
                nogood@,
            ) {
                let s = context.view();
                assert forall|assignment: spec_fn(DomainId) -> int|
                    #[trigger] is_solution(assignment, &context.propagators, s) implies !agrees(
                    assignment,
                    kept@,
                ) by {
                    if agrees(assignment, kept@) {
                        assert(level_before(s, root_length as nat) <= 0) by {
                            if root_length > 0 {
                                assert(s.trail[root_length - 1].decision_level <= 0);
                            }
                        }
                        assert(within_at(assignment, s, root_length as nat));
                        assert forall|k: int| 0 <= k < nogood@.len() implies satisfies(
                            assignment,
                            #[trigger] nogood@[k],
                        ) by {
                            if kept@.contains(nogood@[k]) {
                                lemma_agrees_with_each(assignment, kept@, nogood@[k]);
                            } else {
                                let x = nogood@[k].domain()->0;
                                assert(s.is_valid_domain(x));
                                assert(s.state_at(x, root_length as nat).contains(assignment(x)));
                            }
                        }
                    }
                }
            }
        }
        kept
    }

    /// The lowest level at whose end every predicate holds that held
    /// before the current level began.
    fn backjump_level_of(&self, context: &ConflictAnalysisContext, nogood: &Vec<Predicate>) -> (r: u32)
        requires
            context.wf(),
            context.view().decision_level > 0,
            all_hold_now(nogood@, context),
        ensures
            r < context.view().decision_level,
            held_by_level(
                nogood@,
                context.view(),
                context.view().trail_length_at_level((context.view().decision_level - 1) as u32),
                r,
            ),
            forall|lower: u32|
                lower < r ==> !#[trigger] held_by_level(
                    nogood@,
                    context.view(),
                    context.view().trail_length_at_level((context.view().decision_level - 1) as u32),
                    lower,
                ),
    {
        let current_level = context.engine.assignments_integer.get_decision_level();
        let level_start = context.engine.assignments_integer.get_trail_length_at_level(current_level - 1);
        proof {
            context.engine.assignments_integer.lemma_view_wf();
            lemma_trail_length_at_level(context.view(), (current_level - 1) as u32);
        }
        let mut level: u32 = 0;
        while level + 1 < current_level
            invariant
                context.wf(),
                level < current_level,
                current_level == context.view().decision_level,
                level_start == context.view().trail_length_at_level((current_level - 1) as u32),
                level_start <= context.view().trail.len(),
                all_hold_now(nogood@, context),
                forall|lower: u32|
                    lower < level ==> !#[trigger] held_by_level(
                        nogood@,
                        context.view(),
                        level_start as nat,
                        lower,
                    ),
            decreases current_level - level,
        {
            let n = context.engine.assignments_integer.get_trail_length_at_level(level);
            proof {
                context.engine.assignments_integer.lemma_view_wf();
                lemma_trail_length_at_level(context.view(), level);
            }
            let mut all_hold = true;
            let mut i: usize = 0;
            while i < nogood.len()
                invariant
                    context.wf(),
                    n == context.view().trail_length_at_level(level),
                    n <= context.view().trail.len(),
                    level_start <= context.view().trail.len(),
                    all_hold_now(nogood@, context),
                    i <= nogood@.len(),
                    all_hold <==> forall|k: int|
                        0 <= k < i && context.view().predicate_holds_at(
                            #[trigger] nogood@[k],
                            level_start as nat,
                        ) ==> context.view().predicate_holds_at(nogood@[k], n as nat),
                decreases nogood.len() - i,
            {
                let predicate = nogood[i];
                assert(context.view().predicate_holds_at(nogood@[i as int], context.view().trail.len()));
                if context.engine.assignments_integer.does_predicate_hold_after(&predicate, level_start)
                    && !context.engine.assignments_integer.does_predicate_hold_after(&predicate, n) {
                    all_hold = false;
                }
                i += 1;
            }
            if all_hold {
                return level;
            }
            level += 1;
        }
        level
    }
}

impl ConflictResolver for ResolutionResolver {
    /// Learns the nogood behind the conflict, if `analyse` finds one, and
    /// counts the analysis for the variables of the nogood.
    fn resolve_conflict(&mut self, context: &mut ConflictAnalysisContext) -> (r: Option<
        ConflictResolveResult,
    >)
        ensures
            *final(context) == *old(context),
            r is Some <==> analysed(old(context)) is Some,
            r matches Some(result) ==> result matches ConflictResolveResult::Nogood(nogood)
                && nogood.predicates@ == analysed(old(context))->0 && is_asserting(
                &nogood,
                final(context),
            ) && final(self).activities@ == bumped(old(self).activities@, nogood.predicates@),
            r is None ==> final(self).activities@ == old(self).activities@,
    {
        match self.analyse(context) {
            Some(nogood) => {
                self.bump_activities(&nogood.predicates);
                proof {
                    if is_contradiction_signal(&nogood) {
                        assert(nogood.predicates@[0] == Predicate::False);
                    }
                }
                Some(ConflictResolveResult::Nogood(nogood))
            },
            None => None,
        }
    }

    /// Backjumps to the level of the nogood. Where exactly one of its
    /// predicates does not hold there, posts the negation of that predicate,
    /// with the others as the reason. Where all hold, or the negation cannot
    /// hold, or nothing was learned, goes on as without learning: undoes the
    /// last decision left and posts its negation. Fails where no decision is
    /// left.
    fn process(&mut self, context: &mut ConflictAnalysisContext, resolve_result: &Option<
        ConflictResolveResult,
    >) -> (r: Result<(), ()>)
        ensures
            final(context).propagators == old(context).propagators,
            r is Err ==> final(context).view().decision_level == 0,
            (final(context).search(), r is Ok) == processed(old(context).search(), resolve_result),
            final(context).engine.watch_list_cp == old(context).engine.watch_list_cp,
            final(context).conflict_info == old(context).conflict_info,
            final(context).counters == old(context).counters,
            final(context).learned_constraint_log == old(context).learned_constraint_log,
            final(context).is_completing_proof == old(context).is_completing_proof,
            final(self).activities == old(self).activities,
    {
        let nogood = match resolve_result {
            Some(ConflictResolveResult::Nogood(nogood)) => nogood,
            _ => {
                return context.undo_last_decision();
            },
        };
        context.backtrack(nogood.backjump_level);
        let ghost sound = old(context).keeps_solutions();
        let ghost s = context.view();
        proof {
            context.engine.assignments_integer.lemma_view_wf();
            if sound {
                assert forall|assignment: spec_fn(DomainId) -> int|
                    #[trigger] is_solution(assignment, &context.propagators, s) implies !agrees(
                    assignment,
                    nogood.predicates@,
                ) by {
                    lemma_within_at_prefix(assignment, s, old(context).view(), 0);
                    assert(is_solution(assignment, &old(context).propagators, old(context).view()));
                }
            }
        }
        let mut failing: Option<Predicate> = None;
        let mut count: usize = 0;
        let mut others: Vec<Predicate> = Vec::new();
        let mut i: usize = 0;
        while i < nogood.predicates.len()
            invariant
                context.wf(),
                s == context.view(),
                i <= nogood.predicates@.len(),
                count <= i,
                forall|k: int|
                    0 <= k < nogood.predicates@.len() ==> ((
                    #[trigger] nogood.predicates@[k]).domain() matches Some(x)
                        ==> context.view().is_valid_domain(x)),
                failing matches Some(p) ==> (p.domain() matches Some(x) ==> context.view().is_valid_domain(
                    x,
                )),
                count == failing_part(nogood.predicates@.take(i as int), s).len(),
                count >= 1 ==> failing == Some(failing_part(nogood.predicates@.take(i as int), s).last()),
                context.search() == old(context).search().backtracked(nogood.backjump_level),
                context.propagators == old(context).propagators,
                context.engine.watch_list_cp == old(context).engine.watch_list_cp,
                context.conflict_info == old(context).conflict_info,
                context.counters == old(context).counters,
                context.learned_constraint_log == old(context).learned_constraint_log,
                context.is_completing_proof == old(context).is_completing_proof,
                count == 0 ==> forall|k: int|
                    0 <= k < i ==> s.predicate_holds(#[trigger] nogood.predicates@[k]),
                count == 1 ==> failing is Some && forall|k: int|
                    0 <= k < i ==> s.predicate_holds(#[trigger] nogood.predicates@[k]) || failing
                        == Some(nogood.predicates@[k]),
            decreases nogood.predicates.len() - i,
        {
            let predicate = nogood.predicates[i];
            assert(nogood.predicates@[i as int].domain() matches Some(x)
                ==> context.view().is_valid_domain(x));
            proof {
                assert(nogood.predicates@.take(i + 1).drop_last() =~= nogood.predicates@.take(i as int));
            }
            if context.engine.does_predicate_hold(&predicate) {
                others.push(predicate);
            } else {
                failing = Some(predicate);
                count += 1;
            }
            i += 1;
        }
        proof {
            assert(nogood.predicates@.take(nogood.predicates@.len() as int) =~= nogood.predicates@);
        }
        if count == 1 {
            match failing {
                Some(predicate) => {
                    let negation = predicate.negate();
                    proof {
                        if sound && old(context).decisions_refuted() {
                            assert forall|assignment: spec_fn(DomainId) -> int|
                                #[trigger] is_solution(assignment, &context.propagators, s)
                                    && agrees_below(
                                    assignment,
                                    context.decisions@,
                                    context.decisions@.len() as int,
                                ) implies satisfies(assignment, negation) by {
                                lemma_level_before_bound(s, s.trail.len());
                                assert(within_at(assignment, s, s.trail.len()));
                                lemma_within_is_within_at_end(assignment, s);
                                if satisfies(assignment, predicate) {
                                    assert forall|k: int|
                                        0 <= k < nogood.predicates@.len() implies satisfies(
                                        assignment,
                                        #[trigger] nogood.predicates@[k],
                                    ) by {
                                        if s.predicate_holds(nogood.predicates@[k]) {
                                            lemma_holding_is_satisfied(
                                                assignment,
                                                s,
                                                nogood.predicates@[k],
                                            );
                                        }
                                    }
                                }
                                lemma_negation_is_satisfied(assignment, predicate, negation, s);
                            }
                        }
                    }
                    let posted = context.post_predicate(negation, Reason::Conjunction(others));
                    if posted.is_ok() {
                        return Ok(());
                    }
                    context.undo_last_decision()
                },
                None => Ok(()),
            }
        } else if count == 0 {
            proof {
                if sound && old(context).decisions_refuted() {
                    assert forall|assignment: spec_fn(DomainId) -> int|
                        !(#[trigger] is_solution(assignment, &context.propagators, s) && agrees_below(
                            assignment,
                            context.decisions@,
                            context.decisions@.len() as int,
                        )) by {
                        if is_solution(assignment, &context.propagators, s) && agrees_below(
                            assignment,
                            context.decisions@,
                            context.decisions@.len() as int,
                        ) {
                            lemma_level_before_bound(s, s.trail.len());
                            assert(within_at(assignment, s, s.trail.len()));
                            lemma_within_is_within_at_end(assignment, s);
                            assert forall|k: int| 0 <= k < nogood.predicates@.len() implies satisfies(
                                assignment,
                                #[trigger] nogood.predicates@[k],
                            ) by {
                                lemma_holding_is_satisfied(assignment, s, nogood.predicates@[k]);
                            }
                        }
                    }
                }
            }
            context.undo_last_decision()
        } else {
            Ok(())
        }
    }
}

} // verus!
