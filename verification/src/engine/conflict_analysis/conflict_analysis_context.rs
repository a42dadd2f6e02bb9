//! The state of the solver as conflict analysis sees it.

use vstd::prelude::*;
use crate::basic_types::domain_id::DomainId;
use crate::basic_types::linear_less_or_equal::LinearLessOrEqual;
use crate::basic_types::predicate::Predicate;
use crate::basic_types::stored_conflict_info::StoredConflictInfo;
use crate::engine::assignments_view::EmptyDomain;
use crate::engine::reason_store::Reason;
use crate::engine::assignments_view::AssignmentsView;
use crate::engine::assignments_view::ReasonRef;
use crate::engine::conflict_analysis::learned_nogood::ConflictResolveResult;
use crate::engine::conflict_analysis::learned_nogood::is_contradiction_signal;
use crate::engine::search_space::nogood_is_sound;
use crate::engine::cp_engine_data_structures::CPEngineDataStructures;
use crate::engine::propagation::store::PropagatorStore;
use crate::engine::propagator_queue::PropagatorId;
use crate::engine::propagator_queue::all_empty;
use crate::engine::reason_store::ReasonStore;
use crate::engine::search_space::agrees_below;
use crate::engine::search_space::has_no_solution;
use crate::engine::search_space::is_solution;
use crate::engine::search_space::keeps_solutions;
use crate::engine::search_space::lemma_apply_keeps_solutions;
use crate::engine::search_space::lemma_backtrack_keeps_solutions;
use crate::engine::search_space::lemma_next_level_keeps_solutions;
use crate::engine::search_space::lemma_within_at_prefix;
use crate::engine::search_space::refuted;
use crate::engine::search_space::satisfies;
use crate::engine::search_space::within_at;
use crate::statistics::learned_constraint_log::LearnedConstraintLog;

verus! {

/// Counts of what the linear-inequality analysis did.
#[derive(Clone, Copy, Debug)]
pub struct IntSatStatistics {
    /// How often the analysis gave up and the fallback ran.
    pub intsat_fallback_used: u64,
    /// How many inequalities were learned.
    pub intsat_learned_constraints: u64,
    /// The sum of the numbers of terms of the learned inequalities.
    pub intsat_learned_constraints_total_length: u64,
    /// The sum of the greatest coefficient magnitudes of the learned
    /// inequalities.
    pub intsat_constraint_total_max_coefficient: u64,
}

#[derive(Clone, Copy, Debug)]
pub struct Counters {
    /// How many conflicts were found.
    pub num_conflicts: u64,
    pub intsat_statistics: IntSatStatistics,
}

pub struct ConflictAnalysisContext {
    pub engine: CPEngineDataStructures,
    pub propagators: PropagatorStore,
    pub reason_store: ReasonStore,
    /// The decisions in force, one for each level above the root.
    pub decisions: Vec<Predicate>,
    /// The conflict to analyse.
    pub conflict_info: StoredConflictInfo,
    pub counters: Counters,
    /// What was learned, in the order in which it was learned.
    pub learned_constraint_log: LearnedConstraintLog,
    pub is_completing_proof: bool,
}

/// What backtracking and posting work on: the domain store, the decisions
/// in force, the number of reasons kept, and how many reasons were kept
/// when each level began.
pub struct SearchView {
    pub store: AssignmentsView,
    pub decisions: Seq<Predicate>,
    pub reason_count: nat,
    pub level_starts: Seq<usize>,
}

impl SearchView {
    /// After backtracking to `level`: the store is synchronised, and the
    /// decisions and reasons of the levels above are gone.
    pub open spec fn backtracked(self, level: u32) -> SearchView {
        SearchView {
            store: self.store.synchronise(level),
            decisions: if (level as int) < self.decisions.len() {
                self.decisions.take(level as int)
            } else {
                self.decisions
            },
            reason_count: if (level as int) < self.level_starts.len() && self.level_starts[level as int]
                <= self.reason_count {
                self.level_starts[level as int] as nat
            } else {
                self.reason_count
            },
            level_starts: if (level as int) < self.level_starts.len() {
                self.level_starts.take(level as int)
            } else {
                self.level_starts
            },
        }
    }

    /// After posting `predicate`, and whether it could be made to hold: the
    /// reason is kept, and the predicate is applied with the reference to
    /// it.
    pub open spec fn posted(self, predicate: Predicate) -> (SearchView, bool) {
        let applied = self.store.apply_predicate(predicate, Some(ReasonRef(self.reason_count as usize)));
        (SearchView { store: applied.0, reason_count: self.reason_count + 1, ..self }, applied.1)
    }

    /// After undoing the last decision, and whether there was one to undo:
    /// back one level, the negation of the decision of the level left is
    /// posted; where that cannot hold, the same is done one level further
    /// up.
    pub open spec fn undone(self) -> (SearchView, bool)
        decreases self.decisions.len(),
    {
        if self.decisions.len() == 0 {
            (self, false)
        } else {
            let back = self.backtracked((self.store.decision_level - 1) as u32);
            let turned = back.posted(self.decisions.last().negation());
            if turned.1 || turned.0.decisions.len() >= self.decisions.len() {
                turned
            } else {
                turned.0.undone()
            }
        }
    }
}

/// `c` holds wherever all constraints of the store hold.
pub open spec fn implied_by(store: &PropagatorStore, c: &LinearLessOrEqual) -> bool {
    forall|assignment: spec_fn(DomainId) -> int|
        store.all_hold(assignment) ==> #[trigger] c.holds(assignment)
}

/// No assignment makes all constraints of the store hold.
pub open spec fn unsatisfiable(store: &PropagatorStore) -> bool {
    forall|assignment: spec_fn(DomainId) -> int| !#[trigger] store.all_hold(assignment)
}

impl ConflictResolveResult {
    /// The result fits the state: it backjumps below the current level; a
    /// learned inequality is well-formed, over variables of the store, and
    /// implied by the constraints; a nogood speaks of variables of the
    /// store, no solution makes all its predicates true, provided the
    /// domains kept the solutions, and where it is the signal of a
    /// contradiction, the constraints do contradict each other.
    pub open spec fn is_valid_for(&self, context: &ConflictAnalysisContext) -> bool {
        match self {
            ConflictResolveResult::Constraint(learned) => {
                &&& learned.backjump_level < context.view().decision_level
                &&& learned.constraint.wf()
                &&& learned.constraint.valid_for(context.view())
                &&& implied_by(&context.propagators, &learned.constraint)
            },
            ConflictResolveResult::Nogood(learned) => {
                &&& learned.backjump_level < context.view().decision_level
                &&& forall|i: int|
                    0 <= i < learned.predicates@.len() ==> ((
                    #[trigger] learned.predicates@[i]).domain() matches Some(x)
                        ==> context.view().is_valid_domain(x))
                &&& context.keeps_solutions() ==> nogood_is_sound(
                    &context.propagators,
                    context.view(),
                    learned.predicates@,
                )
                &&& is_contradiction_signal(&learned) ==> unsatisfiable(&context.propagators)
            },
        }
    }
}

/// Applying a predicate changes neither the variables nor the level.
pub proof fn lemma_apply_predicate_keeps_variables(
    s: AssignmentsView,
    predicate: Predicate,
    reason: Option<ReasonRef>,
)
    ensures
        s.apply_predicate(predicate, reason).0.initial_bounds == s.initial_bounds,
        s.apply_predicate(predicate, reason).0.decision_level == s.decision_level,
        !s.apply_predicate(predicate, reason).1 ==> s.apply_predicate(predicate, reason).0 == s,
{
}

/// Under an assignment that gives the variable of a predicate a value of
/// its domain, the negation of the predicate is true where the predicate
/// is not.
pub proof fn lemma_negation_is_satisfied(
    assignment: spec_fn(DomainId) -> int,
    predicate: Predicate,
    negation: Predicate,
    s: AssignmentsView,
)
    requires
        predicate.domain() is Some ==> s.is_valid_domain(predicate.domain()->0),
        within_at(assignment, s, 0),
        negation.domain() == predicate.domain() || negation == Predicate::False,
        forall|value: int|
            i32::MIN <= value <= i32::MAX ==> (#[trigger] negation.holds_for(value)
                <==> !predicate.holds_for(value)),
        !satisfies(assignment, predicate),
    ensures
        satisfies(assignment, negation),
{
    match predicate.domain() {
        Some(x) => {
            assert(s.state_at(x, 0).contains(assignment(x)));
            assert(negation.holds_for(assignment(x)));
        },
        None => {
            assert(negation.holds_for(0));
        },
    }
}

/// `counter + by`, or the greatest `u64` where the sum is none.
pub fn count_up(counter: u64, by: u64) -> (r: u64)
    ensures
        r == if counter + by <= u64::MAX {
            (counter + by) as u64
        } else {
            u64::MAX
        },
{
    if by <= u64::MAX - counter {
        counter + by
    } else {
        u64::MAX
    }
}

impl Counters {
    /// Counters that have counted nothing.
    pub open spec fn zero() -> Counters {
        Counters {
            num_conflicts: 0,
            intsat_statistics: IntSatStatistics {
                intsat_fallback_used: 0,
                intsat_learned_constraints: 0,
                intsat_learned_constraints_total_length: 0,
                intsat_constraint_total_max_coefficient: 0,
            },
        }
    }

    pub fn new() -> (r: Counters)
        ensures
            r == Counters::zero(),
    {
        Counters {
            num_conflicts: 0,
            intsat_statistics: IntSatStatistics {
                intsat_fallback_used: 0,
                intsat_learned_constraints: 0,
                intsat_learned_constraints_total_length: 0,
                intsat_constraint_total_max_coefficient: 0,
            },
        }
    }
}

impl ConflictAnalysisContext {
    /// The domain store as a mathematical value.
    pub open spec fn view(&self) -> AssignmentsView {
        self.engine.assignments_integer@
    }

    /// The invariant: the engine is well-formed, and so is every constraint,
    /// over variables of the store.
    pub open spec fn wf(&self) -> bool {
        &&& self.engine.wf()
        &&& self.propagators.wf(self.view())
        &&& self.decisions@.len() == self.view().decision_level
        &&& forall|i: int|
            0 <= i < self.decisions@.len() ==> ((#[trigger] self.decisions@[i]).domain() matches Some(
                x,
            ) ==> self.view().is_valid_domain(x))
    }

    /// The part of the state that backtracking and posting work on.
    pub open spec fn search(&self) -> SearchView {
        SearchView {
            store: self.view(),
            decisions: self.decisions@,
            reason_count: self.reason_store.reasons().len(),
            level_starts: self.reason_store.level_starts(),
        }
    }

    /// At every point of the trail, the domains held every solution that
    /// agrees with the decisions taken up to there.
    pub open spec fn keeps_solutions(&self) -> bool {
        keeps_solutions(&self.propagators, self.decisions@, self.view())
    }

    /// No solution agrees with the decisions in force.
    pub open spec fn decisions_refuted(&self) -> bool {
        refuted(&self.propagators, self.decisions@, self.view())
    }

    /// No assignment gives every variable a value of its initial domain
    /// and makes every constraint hold.
    pub open spec fn has_no_solution(&self) -> bool {
        has_no_solution(&self.propagators, self.view())
    }

    /// The inequality that explains trail entries with the reason
    /// `reference`, where the reason is a propagator that explains that way.
    pub open spec fn explanation_of(&self, reference: ReasonRef) -> Option<LinearLessOrEqual> {
        if reference.0 < self.reason_store.reasons().len() {
            match self.reason_store.reasons()[reference.0 as int].propagator() {
                Some(id) => self.explanation_of_propagator(id),
                None => None,
            }
        } else {
            None
        }
    }

    /// The inequality by which propagator `id` explains, where there is such
    /// a propagator and it explains that way.
    pub open spec fn explanation_of_propagator(&self, id: PropagatorId) -> Option<LinearLessOrEqual> {
        if (id.0 as int) < self.propagators.propagators@.len() {
            self.propagators.propagators@[id.0 as int].explanation()
        } else {
            None
        }
    }

    /// The state before anything was posted: no variable, no constraint,
    /// no decision, no reason, nothing waiting, nothing counted, nothing
    /// learned, and no conflict but the one that stands for none.
    pub fn new() -> (r: ConflictAnalysisContext)
        ensures
            r.wf(),
            r.view().num_domains() == 0,
            r.view().trail.len() == 0,
            r.view().decision_level == 0,
            r.engine.watch_list_cp.num_domains() == 0,
            r.propagators.propagators@.len() == 0,
            r.propagators.priorities@.len() == 0,
            r.reason_store.reasons().len() == 0,
            r.reason_store.level_starts().len() == 0,
            r.decisions@.len() == 0,
            r.conflict_info == StoredConflictInfo::RootLevelConflict,
            r.counters == Counters::zero(),
            r.learned_constraint_log.entries().len() == 0,
            r.learned_constraint_log.conflicts() == 0,
            !r.is_completing_proof,
            all_empty(r.engine.propagator_queue@),
    {
        ConflictAnalysisContext {
            engine: CPEngineDataStructures::new(),
            propagators: PropagatorStore::new(),
            reason_store: ReasonStore::new(),
            decisions: Vec::new(),
            conflict_info: StoredConflictInfo::RootLevelConflict,
            counters: Counters::new(),
            learned_constraint_log: LearnedConstraintLog::new(),
            is_completing_proof: false,
        }
    }

    /// A copy of the inequality by which propagator `id` explains.
    pub fn get_explanation_of_propagator(&self, id: PropagatorId) -> (r: Option<LinearLessOrEqual>)
        requires
            self.wf(),
        ensures
            r is Some <==> self.explanation_of_propagator(id) is Some,
            r is Some ==> r->0.lhs@ == self.explanation_of_propagator(id)->0.lhs@ && r->0.rhs
                == self.explanation_of_propagator(id)->0.rhs,
            r is Some ==> r->0.wf() && r->0.valid_for(self.view()) && implied_by(
                &self.propagators,
                &r->0,
            ),
    {
        if (id.0 as usize) < self.propagators.num_propagators() {
            let propagator = self.propagators.get(id);
            let explanation = propagator.linear_inequality_explanation();
            proof {
                if explanation is Some {
                    let e = explanation->0;
                    assert(self.propagators.propagators@[id.0 as int].wf(self.view()));
                    assert forall|assignment: spec_fn(DomainId) -> int|
                        self.propagators.all_hold(assignment) implies #[trigger] e.holds(
                        assignment,
                    ) by {
                        assert(self.propagators.propagators@[id.0 as int].holds(assignment));
                    }
                }
            }
            explanation
        } else {
            None
        }
    }

    /// A copy of the inequality that explains trail entries with the reason
    /// `reference`.
    pub fn get_explanation_of(&self, reference: ReasonRef) -> (r: Option<LinearLessOrEqual>)
        requires
            self.wf(),
        ensures
            r is Some <==> self.explanation_of(reference) is Some,
            r is Some ==> r->0.lhs@ == self.explanation_of(reference)->0.lhs@ && r->0.rhs
                == self.explanation_of(reference)->0.rhs,
            r is Some ==> r->0.wf() && r->0.valid_for(self.view()) && implied_by(
                &self.propagators,
                &r->0,
            ),
    {
        match self.reason_store.get_propagator(reference) {
            Some(id) => self.get_explanation_of_propagator(id),
            None => None,
        }
    }

    /// Counts one more conflict, found for the reason `info`.
    pub fn record_conflict(&mut self, info: StoredConflictInfo)
        ensures
            final(self).engine == old(self).engine,
            final(self).propagators == old(self).propagators,
            final(self).reason_store == old(self).reason_store,
            final(self).decisions == old(self).decisions,
            final(self).is_completing_proof == old(self).is_completing_proof,
            final(self).conflict_info == info,
            final(self).counters.num_conflicts == if old(self).counters.num_conflicts < u64::MAX {
                (old(self).counters.num_conflicts + 1) as u64
            } else {
                u64::MAX
            },
            final(self).counters.intsat_statistics == old(self).counters.intsat_statistics,
            final(self).learned_constraint_log.entries() == old(self).learned_constraint_log.entries(),
            final(self).learned_constraint_log.conflicts() == final(self).counters.num_conflicts,
    {
        self.conflict_info = info;
        self.counters.num_conflicts = count_up(self.counters.num_conflicts, 1);
        self.learned_constraint_log.update_num_conflicts(self.counters.num_conflicts);
    }

    /// Backtracks store and reasons to `level` and empties the queue.
    pub fn backtrack(&mut self, level: u32)
        requires
            old(self).wf(),
        ensures
            final(self).wf(),
            final(self).view() == old(self).view().synchronise(level),
            final(self).propagators == old(self).propagators,
            final(self).engine.watch_list_cp == old(self).engine.watch_list_cp,
            all_empty(final(self).engine.propagator_queue@),
            final(self).conflict_info == old(self).conflict_info,
            final(self).counters == old(self).counters,
            final(self).decisions@ == old(self).decisions@.take(
                final(self).view().decision_level as int,
            ),
            old(self).keeps_solutions() ==> final(self).keeps_solutions(),
            final(self).search() == old(self).search().backtracked(level),
            final(self).learned_constraint_log == old(self).learned_constraint_log,
            final(self).is_completing_proof == old(self).is_completing_proof,
    {
        proof {
            self.engine.assignments_integer.lemma_view_wf();
            if self.keeps_solutions() {
                lemma_backtrack_keeps_solutions(&self.propagators, self.decisions@, self.view(), level);
            }
        }
        self.engine.backtrack(level);
        self.reason_store.synchronise(level as usize);
        if (level as usize) < self.decisions.len() {
            self.decisions.truncate(level as usize);
        } else {
            proof {
                assert(self.decisions@.take(self.decisions@.len() as int) =~= self.decisions@);
            }
        }
    }

    /// Opens a new decision level and makes `predicate` hold there as a
    /// decision. Fails, leaving the new level without entries, where the
    /// predicate cannot hold.
    pub fn decide(&mut self, predicate: Predicate) -> (r: Result<(), EmptyDomain>)
        requires
            old(self).wf(),
            old(self).view().decision_level < u32::MAX,
            predicate.domain() is Some ==> old(self).view().is_valid_domain(predicate.domain()->0),
        ensures
            final(self).wf(),
            final(self).propagators == old(self).propagators,
            final(self).engine.watch_list_cp == old(self).engine.watch_list_cp,
            final(self).decisions@ == old(self).decisions@.push(predicate),
            (final(self).view(), r is Ok) == old(self).view().with_level(
                (old(self).view().decision_level + 1) as u32,
            ).apply_predicate(predicate, None),
            old(self).keeps_solutions() ==> final(self).keeps_solutions(),
    {
        self.engine.assignments_integer.increase_decision_level();
        self.reason_store.increase_decision_level();
        self.decisions.push(predicate);
        proof {
            lemma_apply_predicate_keeps_variables(self.view(), predicate, None);
        }
        let ghost deeper = self.view();
        let r = self.engine.apply_predicate(&predicate, None, &self.propagators);
        proof {
            old(self).engine.assignments_integer.lemma_view_wf();
            self.engine.assignments_integer.lemma_view_wf();
            if old(self).keeps_solutions() {
                lemma_next_level_keeps_solutions(
                    &self.propagators,
                    old(self).decisions@,
                    old(self).view(),
                    predicate,
                );
                assert forall|assignment: spec_fn(DomainId) -> int|
                    #[trigger] is_solution(assignment, &self.propagators, deeper) && agrees_below(
                        assignment,
                        self.decisions@,
                        self.decisions@.len() as int,
                    ) implies satisfies(assignment, predicate) by {
                    assert(self.decisions@[self.decisions@.len() - 1] == predicate);
                }
                lemma_apply_keeps_solutions(&self.propagators, self.decisions@, deeper, predicate, None);
            }
        }
        r
    }

    /// Goes on with what is left of the search space: undoes the last
    /// decision and posts its negation, and where that cannot hold either,
    /// does the same with the decision before. Fails, at the root level,
    /// where no decision is left.
    pub fn undo_last_decision(&mut self) -> (r: Result<(), ()>)
        requires
            old(self).wf(),
        ensures
            final(self).wf(),
            final(self).propagators == old(self).propagators,
            final(self).engine.watch_list_cp == old(self).engine.watch_list_cp,
            final(self).view().initial_bounds == old(self).view().initial_bounds,
            r is Ok ==> final(self).view().decision_level < old(self).view().decision_level,
            r is Err ==> final(self).view().decision_level == 0,
            old(self).keeps_solutions() && old(self).decisions_refuted() ==> final(self).keeps_solutions()
                && (r is Err ==> final(self).has_no_solution()),
            (final(self).search(), r is Ok) == old(self).search().undone(),
            final(self).conflict_info == old(self).conflict_info,
            final(self).counters == old(self).counters,
            final(self).learned_constraint_log == old(self).learned_constraint_log,
            final(self).is_completing_proof == old(self).is_completing_proof,
    {
        loop
            invariant
                self.wf(),
                self.search().undone() == old(self).search().undone(),
                self.conflict_info == old(self).conflict_info,
                self.counters == old(self).counters,
                self.learned_constraint_log == old(self).learned_constraint_log,
                self.is_completing_proof == old(self).is_completing_proof,
                self.propagators == old(self).propagators,
                self.engine.watch_list_cp == old(self).engine.watch_list_cp,
                self.view().initial_bounds == old(self).view().initial_bounds,
                self.view().decision_level <= old(self).view().decision_level,
                old(self).keeps_solutions() && old(self).decisions_refuted() ==> self.keeps_solutions()
                    && self.decisions_refuted(),
            decreases self.decisions@.len(),
        {
            if self.decisions.len() == 0 {
                proof {
                    if self.decisions_refuted() {
                        assert forall|assignment: spec_fn(DomainId) -> int|
                            !#[trigger] is_solution(assignment, &self.propagators, self.view()) by {
                            if is_solution(assignment, &self.propagators, self.view()) {
                                assert(agrees_below(
                                    assignment,
                                    self.decisions@,
                                    self.decisions@.len() as int,
                                ));
                            }
                        }
                    }
                }
                return Err(());
            }
            let level: u32 = self.engine.assignments_integer.get_decision_level();
            let decision = self.decisions[self.decisions.len() - 1];
            let ghost deeper = *self;
            self.backtrack(level - 1);
            let negation = decision.negate();
            proof {
                if deeper.keeps_solutions() && deeper.decisions_refuted() {
                    assert forall|assignment: spec_fn(DomainId) -> int|
                        #[trigger] is_solution(assignment, &self.propagators, self.view())
                            && agrees_below(
                            assignment,
                            self.decisions@,
                            self.decisions@.len() as int,
                        ) implies satisfies(assignment, negation) by {
                        lemma_within_at_prefix(assignment, self.view(), deeper.view(), 0);
                        assert(is_solution(assignment, &deeper.propagators, deeper.view()));
                        if satisfies(assignment, decision) {
                            assert forall|i: int|
                                0 <= i < deeper.decisions@.len() implies satisfies(
                                assignment,
                                #[trigger] deeper.decisions@[i],
                            ) by {
                                if i < self.decisions@.len() {
                                    assert(self.decisions@[i] == deeper.decisions@[i]);
                                }
                            }
                            assert(agrees_below(
                                assignment,
                                deeper.decisions@,
                                deeper.decisions@.len() as int,
                            ));
                        }
                        lemma_negation_is_satisfied(assignment, decision, negation, self.view());
                    }
                }
            }
            let posted = self.post_predicate(negation, Reason::Conjunction(Vec::new()));
            if posted.is_ok() {
                return Ok(());
            }
        }
    }

    /// Makes `predicate` hold as something inferred from `reason`, and wakes
    /// the watchers of what changed. Fails, changing no domain, where the
    /// predicate cannot hold.
    pub fn post_predicate(&mut self, predicate: Predicate, reason: Reason) -> (r: Result<(), EmptyDomain>)
        requires
            old(self).wf(),
            predicate.domain() is Some ==> old(self).view().is_valid_domain(predicate.domain()->0),
        ensures
            final(self).wf(),
            final(self).propagators == old(self).propagators,
            final(self).engine.watch_list_cp == old(self).engine.watch_list_cp,
            final(self).conflict_info == old(self).conflict_info,
            final(self).counters == old(self).counters,
            final(self).view().initial_bounds == old(self).view().initial_bounds,
            final(self).view().decision_level == old(self).view().decision_level,
            final(self).decisions == old(self).decisions,
            r is Err ==> final(self).view() == old(self).view(),
            (final(self).view(), r is Ok) == old(self).view().apply_predicate(
                predicate,
                Some(ReasonRef(old(self).reason_store.reasons().len() as usize)),
            ),
            (final(self).search(), r is Ok) == old(self).search().posted(predicate),
            final(self).reason_store.reasons() == old(self).reason_store.reasons().push(reason),
            final(self).learned_constraint_log == old(self).learned_constraint_log,
            final(self).is_completing_proof == old(self).is_completing_proof,
            old(self).keeps_solutions() && (forall|assignment: spec_fn(DomainId) -> int|
                #[trigger] is_solution(assignment, &old(self).propagators, old(self).view())
                    && agrees_below(assignment, old(self).decisions@, old(self).decisions@.len() as int)
                    ==> satisfies(assignment, predicate)) ==> final(self).keeps_solutions() && (r is Err
                ==> old(self).decisions_refuted()),
    {
        let reference = self.reason_store.push(reason);
        proof {
            self.engine.assignments_integer.lemma_view_wf();
            lemma_apply_predicate_keeps_variables(self.view(), predicate, Some(reference));
        }
        let r = self.engine.apply_predicate(&predicate, Some(reference), &self.propagators);
        proof {
            self.engine.assignments_integer.lemma_view_wf();
            if old(self).keeps_solutions() && (forall|assignment: spec_fn(DomainId) -> int|
                #[trigger] is_solution(assignment, &old(self).propagators, old(self).view())
                    && agrees_below(assignment, old(self).decisions@, old(self).decisions@.len() as int)
                    ==> satisfies(assignment, predicate)) {
                lemma_apply_keeps_solutions(
                    &self.propagators,
                    self.decisions@,
                    old(self).view(),
                    predicate,
                    Some(reference),
                );
            }
        }
        r
    }
}

} // verus!
