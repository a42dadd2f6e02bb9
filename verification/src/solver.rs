//! The solver as its users see it: variables, constraints, decisions, and
//! the search for a solution.

use vstd::prelude::*;
use crate::engine::domain_width::lemma_width_nonnegative;
use crate::engine::domain_width::width_up_to;
use crate::engine::conflict_analysis::conflict_analysis_context::count_up;
use crate::engine::conflict_analysis::intsat_conflict_resolver::summed;
use crate::basic_types::domain_events::IntDomainEvent;
use crate::engine::propagation::waking::all_settled;
use crate::engine::propagation::waking::awake;
use crate::engine::propagation::waking::is_registered;
use crate::engine::propagation::waking::lemma_after_enqueue;
use crate::engine::propagation::waking::lemma_awake_grown;
use crate::engine::propagation::waking::lemma_awake_with_more;
use crate::engine::propagation::waking::lemma_least_value_grows;
use crate::engine::propagation::waking::lemma_watched_stays;
use crate::engine::propagation::waking::settled;
use crate::engine::propagation::waking::watched;
use crate::propagators::linear_less_or_equal::is_violated;
use crate::propagators::linear_less_or_equal::watched_event;
use crate::propagators::linear_less_or_equal::watches;
use crate::basic_types::arithmetic::lemma_i32_product_bounds;
use crate::basic_types::domain_id::DomainId;
use crate::basic_types::linear_less_or_equal::LinearLessOrEqual;
use crate::basic_types::linear_terms::evaluate;
use crate::basic_types::linear_terms::lemma_distinct_variables_bound;
use crate::basic_types::linear_terms::mentions;
use crate::propagators::linear_inequality_literal_propagator::LinearInequalityLiteralPropagator;
use crate::basic_types::linear_terms::terms_valid;
use crate::basic_types::linear_terms::terms_wf;
use crate::basic_types::predicate::Predicate;
use crate::branching::selection_context::SelectionContext;
use crate::branching::variable_selector::VariableSelector;
use crate::engine::assignments_view::EmptyDomain;
use crate::engine::assignments_view::lemma_bounds_monotone;
use crate::engine::conflict_analysis::conflict_analysis_context::ConflictAnalysisContext;
use crate::engine::conflict_analysis::conflict_resolver::ConflictResolver;
use crate::engine::conflict_analysis::conflict_resolver::same_solutions;
use crate::engine::conflict_analysis::intsat_conflict_resolver::IntSatConflictResolver;
use crate::engine::propagation::fixpoint::propagate_to_fixpoint;
use crate::engine::propagation::propagator::Propagator;
use crate::propagators::linear_less_or_equal::LinearLessOrEqualPropagator;
use crate::engine::assignments_view::AssignmentsView;
use crate::engine::assignments_view::lemma_grow;
use crate::engine::conflict_analysis::conflict_analysis_context::lemma_apply_predicate_keeps_variables;
use crate::engine::domain_width::extends;
use crate::engine::domain_width::lemma_extends_reflexive;
use crate::engine::search_space::agrees_below;
use crate::engine::search_space::is_solution;
use crate::engine::search_space::keeps_solutions;
use crate::engine::search_space::lemma_conflict_refutes;
use crate::engine::search_space::lemma_extension_keeps_solutions;
use crate::engine::search_space::lemma_fewer_solutions_kept;
use crate::engine::search_space::lemma_grow_keeps_solutions;
use crate::engine::search_space::lemma_same_solutions;
use crate::engine::solutions::within;

verus! {

/// A value for every variable.
#[derive(Debug)]
pub struct Solution {
    pub values: Vec<i32>,
}

/// How the search ended.
#[derive(Debug)]
pub enum SatisfactionResult {
    Satisfiable(Solution),
    Unsatisfiable,
    /// The search was cut short.
    Unknown,
}

/// Why a constraint was not taken in.
#[derive(Clone, Copy, Debug, PartialEq, Eq)]
pub enum ConstraintOperationError {
    /// The constraint has a zero coefficient, a variable twice, or a
    /// variable that the solver does not know.
    InvalidConstraint,
    /// With the constraint, or already without it, the problem has no
    /// solution.
    InfeasibleState,
}

pub struct Solver<Resolver> {
    pub state: ConflictAnalysisContext,
    pub conflict_resolver: Resolver,
    /// Whether the constraints were found to contradict each other.
    pub infeasible: bool,
    /// How many steps the search has taken, as far as a `u64` counts.
    pub steps: u64,
}

/// The least value of every domain, variable by variable.
pub open spec fn least_values_of(s: AssignmentsView) -> Seq<i32> {
    Seq::new(s.num_domains(), |i: int| s.state(DomainId { id: i as u32 }).lower_bound)
}

/// The first variable from number `i` on that is not fixed.
pub open spec fn first_open_from(s: AssignmentsView, i: nat) -> Option<DomainId>
    decreases s.num_domains() - i,
{
    if i >= s.num_domains() {
        None
    } else if s.lower_bound(DomainId { id: i as u32 }) != s.upper_bound(DomainId { id: i as u32 }) {
        Some(DomainId { id: i as u32 })
    } else {
        first_open_from(s, i + 1)
    }
}

/// Where no variable from number `i` on is open, each of them is fixed.
pub proof fn lemma_none_open(s: AssignmentsView, i: nat)
    requires
        first_open_from(s, i) is None,
    ensures
        forall|x: DomainId|
            i <= x.id && s.is_valid_domain(x) ==> #[trigger] s.lower_bound(x) == s.upper_bound(x),
    decreases s.num_domains() - i,
{
    if i < s.num_domains() {
        lemma_none_open(s, i + 1);
        assert forall|x: DomainId| i <= x.id && s.is_valid_domain(x) implies #[trigger] s.lower_bound(x)
            == s.upper_bound(x) by {
            if x.id == i {
                assert(x == DomainId { id: i as u32 });
            }
        }
    }
}

/// Domains that are all fixed have no room.
pub proof fn lemma_fixed_has_no_width(s: AssignmentsView, k: nat)
    requires
        k <= s.num_domains(),
        s.num_domains() <= u32::MAX,
        forall|x: DomainId| s.is_valid_domain(x) ==> #[trigger] s.lower_bound(x) == s.upper_bound(x),
    ensures
        width_up_to(s, k) == 0,
    decreases k,
{
    if k > 0 {
        lemma_fixed_has_no_width(s, (k - 1) as nat);
        let x = DomainId { id: (k - 1) as u32 };
        assert(s.is_valid_domain(x));
        assert(s.lower_bound(x) == s.upper_bound(x));
    }
}

/// The least values of the domains are within the domains.
pub proof fn lemma_least_values_within(s: AssignmentsView)
    requires
        s.wf(),
    ensures
        within(assignment_of(least_values_of(s)), s),
{
    let least = assignment_of(least_values_of(s));
    assert forall|x: DomainId| s.is_valid_domain(x) implies #[trigger] s.contains(x, least(x)) by {
        assert(least_values_of(s)[x.id as int] == s.state(DomainId { id: x.id as int as u32 }).lower_bound);
        assert(DomainId { id: x.id as int as u32 } == x);
        assert(s.state_at(x, s.trail.len()).consistent());
    }
}

/// The assignment that gives variable `x` the value `values[x.id]`.
pub open spec fn assignment_of(values: Seq<i32>) -> spec_fn(DomainId) -> int {
    |x: DomainId|
        if (x.id as int) < values.len() {
            values[x.id as int] as int
        } else {
            0int
        }
}

impl Solution {
    /// The solution as an assignment.
    pub open spec fn assignment(&self) -> spec_fn(DomainId) -> int {
        assignment_of(self.values@)
    }

    pub fn get_integer_value(&self, x: DomainId) -> (r: i32)
        requires
            (x.id as int) < self.values@.len(),
        ensures
            r == self.assignment()(x),
    {
        self.values[x.id as usize]
    }
}

/// Whether `inequality` is well-formed and over the first `num_domains`
/// variables.
fn is_well_formed(inequality: &LinearLessOrEqual, num_domains: u32) -> (r: bool)
    ensures
        r == (terms_wf(inequality.lhs@) && forall|i: int|
            0 <= i < inequality.lhs@.len() ==> (#[trigger] inequality.lhs@[i]).0.id < num_domains),
{
    let terms = &inequality.lhs.0;
    let mut i: usize = 0;
    while i < terms.len()
        invariant
            terms@ == inequality.lhs@,
            i <= terms@.len(),
            forall|k: int| 0 <= k < i ==> (#[trigger] terms@[k]).1 != 0 && terms@[k].0.id < num_domains,
            forall|a: int, b: int| 0 <= a < b < i ==> (#[trigger] terms@[a]).0 != (#[trigger] terms@[b]).0,
        decreases terms.len() - i,
    {
        if terms[i].1 == 0 || terms[i].0.id >= num_domains {
            return false;
        }
        let mut j: usize = 0;
        while j < i
            invariant
                terms@ == inequality.lhs@,
                i < terms@.len(),
                j <= i,
                forall|a: int| 0 <= a < j ==> (#[trigger] terms@[a]).0 != terms@[i as int].0,
            decreases i - j,
        {
            if terms[j].0 == terms[i].0 {
                assert(inequality.lhs@[j as int].0 == inequality.lhs@[i as int].0);
                assert(!terms_wf(inequality.lhs@));
                return false;
            }
            j += 1;
        }
        i += 1;
    }
    true
}

/// Whether `inequality` holds where every variable `x` has the value
/// `values[x.id]`.
fn holds_for(inequality: &LinearLessOrEqual, values: &Vec<i32>) -> (r: bool)
    requires
        forall|i: int|
            0 <= i < inequality.lhs@.len() ==> ((#[trigger] inequality.lhs@[i]).0.id as int)
                < values@.len(),
    ensures
        r == inequality.holds(assignment_of(values@)),
{
    let terms = &inequality.lhs.0;
    let ghost assignment = assignment_of(values@);
    let mut sum: i128 = 0;
    let mut i: usize = 0;
    while i < terms.len()
        invariant
            terms@ == inequality.lhs@,
            assignment == assignment_of(values@),
            forall|k: int| 0 <= k < terms@.len() ==> ((#[trigger] terms@[k]).0.id as int) < values@.len(),
            i <= terms@.len(),
            sum == evaluate(terms@.take(i as int), assignment),
            -0x4000_0000_0000_0000 * i <= sum <= 0x4000_0000_0000_0000 * i,
        decreases terms.len() - i,
    {
        let term = terms[i];
        assert((terms@[i as int].0.id as int) < values@.len());
        let value = values[term.0.id as usize];
        proof {
            assert(terms@.take(i + 1).drop_last() =~= terms@.take(i as int));
            lemma_i32_product_bounds(term.1 as int, value as int);
            assert(assignment(term.0) == value);
        }
        sum = sum + term.1 as i128 * value as i128;
        i += 1;
    }
    proof {
        assert(terms@.take(terms@.len() as int) =~= terms@);
    }
    sum <= inequality.rhs as i128
}

impl<Resolver> Solver<Resolver> {
    /// The invariant: the state is well-formed, the domains hold every
    /// solution that agrees with the decisions, and the problem is marked
    /// as infeasible only where it has no solution.
    pub open spec fn wf(&self) -> bool {
        &&& self.state.wf()
        &&& self.state.keeps_solutions()
        &&& self.infeasible ==> self.state.has_no_solution()
    }

    /// The least values of the domains satisfy every constraint, and the
    /// strategy has picked no variable.
    pub open spec fn is_solved_by_least_values(&self, selected: Option<DomainId>) -> bool {
        selected is None && self.state.propagators.all_hold(
            assignment_of(least_values_of(self.state.view())),
        )
    }

    /// The variable to decide on: the one that the strategy picked, or
    /// else the first one that is not fixed.
    pub open spec fn branching_variable(&self, selected: Option<DomainId>) -> Option<DomainId> {
        match selected {
            Some(x) => Some(x),
            None => first_open_from(self.state.view(), 0),
        }
    }

    /// Some linear inequality that was posted cannot hold in the domains.
    pub open spec fn has_violated_inequality(&self) -> bool {
        exists|i: int|
            0 <= i < self.state.propagators.propagators@.len() && (
            #[trigger] self.state.propagators.propagators@[i]) is LinearLessOrEqual && is_violated(
                &self.state.propagators.propagators@[i]->LinearLessOrEqual_0.inequality,
                self.state.view(),
            )
    }

    /// Every variable is fixed, and the values satisfy every constraint.
    pub open spec fn is_solved(&self) -> bool {
        first_open_from(self.state.view(), 0) is None && self.state.propagators.all_hold(
            assignment_of(least_values_of(self.state.view())),
        )
    }

    /// Every variable is fixed, and the values do not satisfy every
    /// constraint.
    pub open spec fn is_stuck(&self) -> bool {
        first_open_from(self.state.view(), 0) is None && !self.state.propagators.all_hold(
            assignment_of(least_values_of(self.state.view())),
        )
    }

    /// Every propagator of a linear inequality is registered for its
    /// terms, and those whose inequality is violated or not at its
    /// fixpoint wait in the queue. This holds of a new solver and stays
    /// while variables and constraints are added.
    pub open spec fn is_awake(&self) -> bool {
        &&& watched(&self.state.propagators, &self.state.engine.watch_list_cp)
        &&& awake(self.state.engine.propagator_queue@, &self.state.propagators, self.state.view(), None)
    }
}

impl Solver<IntSatConflictResolver> {
    /// A solver that learns linear inequalities from its conflicts.
    pub fn new() -> (r: Solver<IntSatConflictResolver>)
        ensures
            r.wf(),
            r.is_awake(),
            r.state.view().num_domains() == 0,
            r.state.view().decision_level == 0,
            r.state.propagators.propagators@.len() == 0,
            !r.infeasible,
    {
        Solver::with_resolver(IntSatConflictResolver::new())
    }
}

impl<Resolver: ConflictResolver> Solver<Resolver> {
    /// A solver that resolves its conflicts with `conflict_resolver`.
    pub fn with_resolver(conflict_resolver: Resolver) -> (r: Solver<Resolver>)
        ensures
            r.wf(),
            r.is_awake(),
            r.state.view().num_domains() == 0,
            r.state.view().decision_level == 0,
            r.state.propagators.propagators@.len() == 0,
            r.conflict_resolver == conflict_resolver,
            !r.infeasible,
            r.steps == 0,
    {
        Solver { state: ConflictAnalysisContext::new(), conflict_resolver, infeasible: false, steps: 0 }
    }

    /// A new variable with the domain `lower..=upper`.
    pub fn new_bounded_integer(&mut self, lower: i32, upper: i32) -> (r: DomainId)
        requires
            old(self).wf(),
            lower <= upper,
            old(self).state.view().num_domains() < u32::MAX,
        ensures
            final(self).wf(),
            r.id == old(self).state.view().num_domains(),
            final(self).state.view() == old(self).state.view().grow(lower, upper),
            final(self).state.view().lower_bound(r) == lower,
            final(self).state.view().upper_bound(r) == upper,
            final(self).state.propagators == old(self).state.propagators,
            final(self).infeasible == old(self).infeasible,
            old(self).is_awake() ==> final(self).is_awake(),
    {
        let id = self.state.engine.new_domain(lower, upper);
        proof {
            self.state.engine.assignments_integer.lemma_view_wf();
            old(self).state.engine.assignments_integer.lemma_view_wf();
            let s = old(self).state.view();
            let t = self.state.view();
            if old(self).is_awake() {
                lemma_awake_grown(
                    &self.state.propagators,
                    self.state.engine.propagator_queue@,
                    s,
                    lower,
                    upper,
                );
                lemma_watched_stays(
                    &self.state.propagators,
                    &self.state.propagators,
                    &old(self).state.engine.watch_list_cp,
                    &self.state.engine.watch_list_cp,
                    s,
                );
            }
            lemma_grow_keeps_solutions(&self.state.propagators, self.state.decisions@, s, lower, upper);
            if self.infeasible {
                lemma_grow(s, lower, upper);
                assert forall|assignment: spec_fn(DomainId) -> int|
                    !#[trigger] is_solution(assignment, &self.state.propagators, t) by {
                    if is_solution(assignment, &self.state.propagators, t) {
                        assert forall|x: DomainId| s.is_valid_domain(x) implies (#[trigger] s.state_at(
                            x,
                            0,
                        )).contains(assignment(x)) by {
                            assert(t.is_valid_domain(x));
                            assert(t.state_at(x, 0).contains(assignment(x)));
                        }
                        assert(is_solution(assignment, &self.state.propagators, s));
                    }
                }
            }
        }
        id
    }

    pub fn lower_bound(&self, x: DomainId) -> (r: i32)
        requires
            self.state.wf(),
            self.state.view().is_valid_domain(x),
        ensures
            r == self.state.view().lower_bound(x),
    {
        self.state.engine.assignments_integer.get_lower_bound(x)
    }

    pub fn upper_bound(&self, x: DomainId) -> (r: i32)
        requires
            self.state.wf(),
            self.state.view().is_valid_domain(x),
        ensures
            r == self.state.view().upper_bound(x),
    {
        self.state.engine.assignments_integer.get_upper_bound(x)
    }

    /// Posts `inequality`: gives it a propagator, and at the root level
    /// propagates at once. The constraint is refused, and nothing changes,
    /// where it is not well-formed, the problem is known to have no
    /// solution, or no handle is left for its propagator; it is taken in,
    /// and the failure reported, where propagation finds that with it the
    /// problem has no solution. For a solver that is awake: at the root
    /// level, success leaves every linear inequality at its fixpoint, and a
    /// constraint that the domains violate outright is reported as a
    /// failure.
    pub fn add_constraint(&mut self, inequality: LinearLessOrEqual) -> (r: Result<
        (),
        ConstraintOperationError,
    >)
        requires
            old(self).wf(),
        ensures
            final(self).wf(),
            final(self).state.view().initial_bounds == old(self).state.view().initial_bounds,
            final(self).state.decisions == old(self).state.decisions,
            !old(self).accepts(&inequality) ==> final(self).state.view() == old(self).state.view()
                && final(self).state.propagators == old(self).state.propagators && final(self).infeasible
                == old(self).infeasible,
            !(inequality.wf() && inequality.valid_for(old(self).state.view())) ==> r == Err::<
                (),
                ConstraintOperationError,
            >(ConstraintOperationError::InvalidConstraint),
            inequality.wf() && inequality.valid_for(old(self).state.view()) && old(self).infeasible ==> r
                == Err::<(), ConstraintOperationError>(ConstraintOperationError::InfeasibleState),
            inequality.wf() && inequality.valid_for(old(self).state.view()) && !old(self).infeasible
                && old(self).state.propagators.propagators@.len() >= u32::MAX ==> r == Err::<
                (),
                ConstraintOperationError,
            >(ConstraintOperationError::InvalidConstraint),
            old(self).accepts(&inequality) ==> {
                &&& final(self).state.propagators.propagators@.len()
                    == old(self).state.propagators.propagators@.len() + 1
                &&& forall|assignment: spec_fn(DomainId) -> int| #[trigger]
                    final(self).state.propagators.all_hold(assignment) <==> old(self).state.propagators.all_hold(assignment) && inequality.holds(assignment)
                &&& extends(old(self).state.view(), final(self).state.view())
                &&& r is Err ==> r == Err::<(), ConstraintOperationError>(
                    ConstraintOperationError::InfeasibleState,
                ) && old(self).state.view().decision_level == 0
                &&& final(self).infeasible == r is Err
            },
            old(self).is_awake() && r is Ok ==> final(self).is_awake(),
            old(self).is_awake() && r is Ok && old(self).state.view().decision_level == 0 ==> all_settled(
                &final(self).state.propagators,
                final(self).state.view(),
            ),
            old(self).is_awake() && old(self).accepts(&inequality) && old(self).state.view().decision_level
                == 0 && is_violated(&inequality, old(self).state.view()) ==> r is Err,
    {
        let count = self.state.engine.assignments_integer.num_domains();
        if !is_well_formed(&inequality, count) {
            return Err(ConstraintOperationError::InvalidConstraint);
        }
        if self.infeasible {
            return Err(ConstraintOperationError::InfeasibleState);
        }
        if self.state.propagators.num_propagators() >= u32::MAX as usize {
            return Err(ConstraintOperationError::InvalidConstraint);
        }
        proof {
            self.state.engine.assignments_integer.lemma_view_wf();
            lemma_distinct_variables_bound(inequality.lhs@, self.state.view());
        }
        let propagator = Propagator::LinearLessOrEqual(LinearLessOrEqualPropagator::new(inequality));
        let priority = propagator.priority();
        let ghost old_store = self.state.propagators.propagators@;
        let allocated = self.state.propagators.add_propagator(propagator);
        let id = match allocated {
            Some(id) => id,
            None => {
                return Err(ConstraintOperationError::InvalidConstraint);
            },
        };
        proof {
            let new_store = self.state.propagators.propagators@;
            assert forall|assignment: spec_fn(DomainId) -> int| #[trigger]
                self.state.propagators.all_hold(assignment) <==> old(self).state.propagators.all_hold(
                    assignment,
                ) && inequality.holds(assignment) by {
                if self.state.propagators.all_hold(assignment) {
                    assert(new_store[old_store.len() as int].holds(assignment));
                    assert forall|i: int| 0 <= i < old_store.len() implies (#[trigger] old_store[i]).holds(
                        assignment,
                    ) by {
                        assert(new_store[i].holds(assignment));
                    }
                }
                if old(self).state.propagators.all_hold(assignment) && inequality.holds(assignment) {
                    assert forall|i: int| 0 <= i < new_store.len() implies (#[trigger] new_store[i]).holds(
                        assignment,
                    ) by {
                        if i < old_store.len() {
                            assert(old_store[i].holds(assignment));
                        }
                    }
                }
            }
            lemma_fewer_solutions_kept(
                &old(self).state.propagators,
                &self.state.propagators,
                self.state.decisions@,
                self.state.view(),
            );
            lemma_extends_reflexive(self.state.view());
        }
        let ghost terms = inequality.lhs@;
        let ghost posted = *self;
        self.state.propagators.get(id).initialise_at_root(id, &mut self.state.engine.watch_list_cp);
        let ghost queue_before = self.state.engine.propagator_queue@;
        self.state.engine.propagator_queue.enqueue_propagator(id, priority);
        proof {
            if old(self).is_awake() {
                let before = &old(self).state.engine.watch_list_cp;
                let after = &self.state.engine.watch_list_cp;
                assert forall|y: DomainId, event: IntDomainEvent|
                    (y.id as int) < before.num_domains() implies before.watchers_of(y, event).len() <= (
                #[trigger] after.watchers_of(y, event)).len() && forall|j: int|
                    0 <= j < before.watchers_of(y, event).len() ==> after.watchers_of(y, event)[j]
                        == before.watchers_of(y, event)[j] by {
                    if exists|i: int| watches(terms, i, y, event) {
                        let i = choose|i: int| watches(terms, i, y, event);
                        assert(watches(terms, i, y, event));
                    }
                }
                assert forall|i: int, k: int|
                    old(self).state.propagators.propagators@.len() <= i
                        < self.state.propagators.propagators@.len()
                        && self.state.propagators.propagators@[i] is LinearLessOrEqual && 0 <= k
                        < self.state.propagators.propagators@[i]->LinearLessOrEqual_0.inequality.lhs@.len() implies #[trigger] is_registered(
                    &self.state.propagators,
                    after,
                    i,
                    k,
                ) by {
                    let y = terms[k].0;
                    let event = watched_event(terms[k].1);
                    assert(watches(terms, k, y, event));
                    let list = before.watchers_of(y, event);
                    assert(after.watchers_of(y, event)[list.len() as int].propagator == id);
                }
                lemma_watched_stays(
                    &old(self).state.propagators,
                    &self.state.propagators,
                    before,
                    after,
                    self.state.view(),
                );
                lemma_after_enqueue(queue_before, id, priority as int);
                lemma_awake_with_more(
                    &old(self).state.propagators,
                    &self.state.propagators,
                    queue_before,
                    self.state.engine.propagator_queue@,
                    self.state.view(),
                );
            }
        }
        let ghost waiting = *self;
        let r = self.propagate_at_root();
        proof {
            if old(self).is_awake() && r is Ok && old(self).state.view().decision_level == 0 {
                let last = old(self).state.propagators.propagators@.len() as int;
                assert(self.state.propagators.propagators@[last] is LinearLessOrEqual);
                assert(settled(
                    &self.state.propagators.propagators@[last]->LinearLessOrEqual_0.inequality,
                    self.state.view(),
                ));
                assert forall|k: int| 0 <= k < terms.len() implies self.state.view().lower_bound(
                    (#[trigger] terms[k]).0,
                ) >= waiting.state.view().lower_bound(terms[k].0) && self.state.view().upper_bound(
                    terms[k].0,
                ) <= waiting.state.view().upper_bound(terms[k].0) by {
                    assert(waiting.state.view().is_valid_domain(terms[k].0));
                    assert(self.state.view().lower_bound(terms[k].0) >= waiting.state.view().lower_bound(
                        terms[k].0,
                    ));
                }
                lemma_least_value_grows(terms, waiting.state.view(), self.state.view());
            }
        }
        r
    }

    /// Posts `literal >= 1 <==> inequality`: gives the constraint a
    /// propagator that wakes on every change to one of its variables, and at
    /// the root level propagates at once. The constraint is refused, and
    /// nothing changes, where the inequality is not well-formed, the literal
    /// is unknown or occurs in the inequality, the problem is known to have
    /// no solution, or no handle is left for the propagator; it is taken
    /// in, and the failure reported, where propagation finds that with it
    /// the problem has no solution.
    pub fn add_reified_constraint(&mut self, inequality: LinearLessOrEqual, literal: DomainId) -> (r:
        Result<(), ConstraintOperationError>)
        requires
            old(self).wf(),
        ensures
            final(self).wf(),
            final(self).state.view().initial_bounds == old(self).state.view().initial_bounds,
            final(self).state.decisions == old(self).state.decisions,
            !(old(self).accepts(&inequality) && old(self).state.view().is_valid_domain(literal) && !mentions(
                inequality.lhs@,
                literal,
            )) ==> final(self).state.view() == old(self).state.view() && final(self).state.propagators
                == old(self).state.propagators && final(self).infeasible == old(self).infeasible,
            !(inequality.wf() && inequality.valid_for(old(self).state.view()) && old(self).state.view().is_valid_domain(literal) && !mentions(inequality.lhs@, literal)) ==> r
                == Err::<(), ConstraintOperationError>(ConstraintOperationError::InvalidConstraint),
            inequality.wf() && inequality.valid_for(old(self).state.view()) && old(self).state.view().is_valid_domain(literal) && !mentions(inequality.lhs@, literal)
                && old(self).infeasible ==> r == Err::<(), ConstraintOperationError>(
                ConstraintOperationError::InfeasibleState,
            ),
            inequality.wf() && inequality.valid_for(old(self).state.view()) && old(self).state.view().is_valid_domain(literal) && !mentions(inequality.lhs@, literal)
                && !old(self).infeasible && old(self).state.propagators.propagators@.len() >= u32::MAX
                ==> r == Err::<(), ConstraintOperationError>(ConstraintOperationError::InvalidConstraint),
            old(self).accepts(&inequality) && old(self).state.view().is_valid_domain(literal) && !mentions(
                inequality.lhs@,
                literal,
            ) ==> {
                &&& final(self).state.propagators.propagators@.len()
                    == old(self).state.propagators.propagators@.len() + 1
                &&& forall|assignment: spec_fn(DomainId) -> int| #[trigger]
                    final(self).state.propagators.all_hold(assignment) <==> old(self).state.propagators.all_hold(assignment) && (assignment(literal) >= 1
                        ==> inequality.holds(assignment)) && (assignment(literal) <= 0 ==> !inequality.holds(
                        assignment,
                    ))
                &&& extends(old(self).state.view(), final(self).state.view())
                &&& r is Err ==> r == Err::<(), ConstraintOperationError>(
                    ConstraintOperationError::InfeasibleState,
                ) && old(self).state.view().decision_level == 0
                &&& final(self).infeasible == r is Err
            },
            old(self).is_awake() && r is Ok ==> final(self).is_awake(),
            old(self).is_awake() && r is Ok && old(self).state.view().decision_level == 0 ==> all_settled(
                &final(self).state.propagators,
                final(self).state.view(),
            ),
    {
        let count = self.state.engine.assignments_integer.num_domains();
        if !is_well_formed(&inequality, count) || literal.id >= count || inequality.contains_variable(
            literal,
        ) {
            return Err(ConstraintOperationError::InvalidConstraint);
        }
        if self.infeasible {
            return Err(ConstraintOperationError::InfeasibleState);
        }
        if self.state.propagators.num_propagators() >= u32::MAX as usize {
            return Err(ConstraintOperationError::InvalidConstraint);
        }
        proof {
            self.state.engine.assignments_integer.lemma_view_wf();
            lemma_distinct_variables_bound(inequality.lhs@, self.state.view());
        }
        let propagator = Propagator::LinearInequalityLiteral(
            LinearInequalityLiteralPropagator::new(inequality, literal),
        );
        let priority = propagator.priority();
        let ghost old_store = self.state.propagators.propagators@;
        let allocated = self.state.propagators.add_propagator(propagator);
        let id = match allocated {
            Some(id) => id,
            None => {
                return Err(ConstraintOperationError::InvalidConstraint);
            },
        };
        proof {
            let new_store = self.state.propagators.propagators@;
            assert forall|assignment: spec_fn(DomainId) -> int| #[trigger]
                self.state.propagators.all_hold(assignment) <==> old(self).state.propagators.all_hold(
                    assignment,
                ) && (assignment(literal) >= 1 ==> inequality.holds(assignment)) && (assignment(literal)
                    <= 0 ==> !inequality.holds(assignment)) by {
                if self.state.propagators.all_hold(assignment) {
                    assert(new_store[old_store.len() as int].holds(assignment));
                    assert forall|i: int| 0 <= i < old_store.len() implies (#[trigger] old_store[i]).holds(
                        assignment,
                    ) by {
                        assert(new_store[i].holds(assignment));
                    }
                }
                if old(self).state.propagators.all_hold(assignment) && (assignment(literal) >= 1
                    ==> inequality.holds(assignment)) && (assignment(literal) <= 0 ==> !inequality.holds(
                    assignment,
                )) {
                    assert forall|i: int| 0 <= i < new_store.len() implies (#[trigger] new_store[i]).holds(
                        assignment,
                    ) by {
                        if i < old_store.len() {
                            assert(old_store[i].holds(assignment));
                        }
                    }
                }
            }
        }
        proof {
            let extended = inequality.lhs@.push((literal, 1i32));
            assert(terms_wf(extended)) by {
                assert forall|i: int| 0 <= i < extended.len() implies (#[trigger] extended[i]).1 != 0 by {
                    if i < inequality.lhs@.len() {
                        assert(inequality.lhs@[i].1 != 0);
                    }
                }
                assert forall|a: int, b: int| 0 <= a < b < extended.len() implies (
                #[trigger] extended[a]).0 != (#[trigger] extended[b]).0 by {
                    if b < inequality.lhs@.len() {
                        assert(inequality.lhs@[a].0 != inequality.lhs@[b].0);
                    } else {
                        assert(inequality.lhs@[a].0 != literal);
                    }
                }
            }
            assert(terms_valid(extended, self.state.view())) by {
                assert forall|i: int| 0 <= i < extended.len() implies self.state.view().is_valid_domain(
                    (#[trigger] extended[i]).0,
                ) by {
                    if i < inequality.lhs@.len() {
                        assert(self.state.view().is_valid_domain(inequality.lhs@[i].0));
                    }
                }
            }
            lemma_distinct_variables_bound(extended, self.state.view());
            lemma_fewer_solutions_kept(
                &old(self).state.propagators,
                &self.state.propagators,
                self.state.decisions@,
                self.state.view(),
            );
        }
        self.state.propagators.get(id).initialise_at_root(id, &mut self.state.engine.watch_list_cp);
        let ghost queue_before = self.state.engine.propagator_queue@;
        self.state.engine.propagator_queue.enqueue_propagator(id, priority);
        proof {
            if old(self).is_awake() {
                let before = &old(self).state.engine.watch_list_cp;
                let after = &self.state.engine.watch_list_cp;
                lemma_watched_stays(
                    &old(self).state.propagators,
                    &self.state.propagators,
                    before,
                    after,
                    self.state.view(),
                );
                lemma_after_enqueue(queue_before, id, priority as int);
                lemma_awake_with_more(
                    &old(self).state.propagators,
                    &self.state.propagators,
                    queue_before,
                    self.state.engine.propagator_queue@,
                    self.state.view(),
                );
            }
        }
        self.propagate_at_root()
    }

    /// Whether the solver takes `inequality` in: it is well-formed and over
    /// variables of the solver, the problem is not known to have no
    /// solution, and a handle is left for its propagator.
    pub open spec fn accepts(&self, inequality: &LinearLessOrEqual) -> bool {
        &&& inequality.wf()
        &&& inequality.valid_for(self.state.view())
        &&& !self.infeasible
        &&& self.state.propagators.propagators@.len() < u32::MAX
    }

    /// At the root level, propagates to the fixpoint, and marks the problem
    /// as infeasible where that finds a conflict. Does nothing below the
    /// root level.
    fn propagate_at_root(&mut self) -> (r: Result<(), ConstraintOperationError>)
        requires
            old(self).state.wf(),
            old(self).state.keeps_solutions(),
            !old(self).infeasible,
        ensures
            final(self).wf(),
            final(self).state.propagators == old(self).state.propagators,
            final(self).state.decisions == old(self).state.decisions,
            extends(old(self).state.view(), final(self).state.view()),
            r is Err ==> r == Err::<(), ConstraintOperationError>(
                ConstraintOperationError::InfeasibleState,
            ) && old(self).state.view().decision_level == 0,
            final(self).infeasible == r is Err,
            old(self).is_awake() && r is Ok ==> final(self).is_awake(),
            old(self).is_awake() && r is Ok && old(self).state.view().decision_level == 0 ==> all_settled(
                &final(self).state.propagators,
                final(self).state.view(),
            ),
    {
        proof {
            lemma_extends_reflexive(self.state.view());
            self.state.engine.assignments_integer.lemma_view_wf();
        }
        if self.state.engine.assignments_integer.get_decision_level() == 0 {
            let status = propagate_to_fixpoint(
                &mut self.state.engine,
                &self.state.propagators,
                &mut self.state.reason_store,
            );
            proof {
                self.lemma_propagation_keeps_solutions(old(self).state.view(), status is Err);
            }
            if status.is_err() {
                self.infeasible = true;
                return Err(ConstraintOperationError::InfeasibleState);
            }
        }
        Ok(())
    }

    /// After propagation from the domains `before`, which kept the
    /// solutions, the domains keep them; and where propagation found a
    /// conflict, no solution agrees with the decisions.
    proof fn lemma_propagation_keeps_solutions(&self, before: AssignmentsView, failed: bool)
        requires
            before.wf(),
            self.state.wf(),
            extends(before, self.state.view()),
            keeps_solutions(&self.state.propagators, self.state.decisions@, before),
            forall|assignment: spec_fn(DomainId) -> int|
                self.state.propagators.all_hold(assignment) && #[trigger] within(assignment, before)
                    ==> within(assignment, self.state.view()),
            failed ==> forall|assignment: spec_fn(DomainId) -> int|
                !(self.state.propagators.all_hold(assignment) && #[trigger] within(assignment, before)),
        ensures
            self.state.keeps_solutions(),
            failed ==> self.state.decisions_refuted(),
            failed && self.state.view().decision_level == 0 ==> self.state.has_no_solution(),
    {
        let store = &self.state.propagators;
        let decisions = self.state.decisions@;
        let after = self.state.view();
        self.state.engine.assignments_integer.lemma_view_wf();
        lemma_extension_keeps_solutions(store, decisions, before, after);
        if failed {
            lemma_conflict_refutes(store, decisions, before);
            assert forall|assignment: spec_fn(DomainId) -> int|
                !(#[trigger] is_solution(assignment, store, after) && agrees_below(
                    assignment,
                    decisions,
                    decisions.len() as int,
                )) by {
                lemma_same_solutions(assignment, store, before, after);
            }
            if after.decision_level == 0 {
                assert forall|assignment: spec_fn(DomainId) -> int|
                    !#[trigger] is_solution(assignment, store, after) by {
                    if is_solution(assignment, store, after) {
                        assert(agrees_below(assignment, decisions, decisions.len() as int));
                    }
                }
            }
        }
    }

    /// Opens a new decision level and applies `predicate` there as a
    /// decision.
    pub fn decide(&mut self, predicate: Predicate) -> (r: Result<(), EmptyDomain>)
        requires
            old(self).wf(),
            old(self).state.view().decision_level < u32::MAX,
            predicate.domain() is Some ==> old(self).state.view().is_valid_domain(
                predicate.domain()->0,
            ),
        ensures
            final(self).wf(),
            final(self).state.propagators == old(self).state.propagators,
            final(self).infeasible == old(self).infeasible,
            final(self).state.decisions@ == old(self).state.decisions@.push(predicate),
            (final(self).state.view(), r is Ok) == old(self).state.view().with_level(
                (old(self).state.view().decision_level + 1) as u32,
            ).apply_predicate(predicate, None),
    {
        let r = self.state.decide(predicate);
        proof {
            lemma_apply_predicate_keeps_variables(
                old(self).state.view().with_level((old(self).state.view().decision_level + 1) as u32),
                predicate,
                None,
            );
            if self.infeasible {
                assert forall|assignment: spec_fn(DomainId) -> int|
                    !#[trigger] is_solution(
                        assignment,
                        &self.state.propagators,
                        self.state.view(),
                    ) by {
                    lemma_same_solutions(
                        assignment,
                        &self.state.propagators,
                        old(self).state.view(),
                        self.state.view(),
                    );
                }
            }
        }
        r
    }

    /// Whether every constraint holds where every variable `x` has the
    /// value `values[x.id]`.
    pub fn check_solution(&self, values: &Vec<i32>) -> (r: bool)
        requires
            self.state.wf(),
            values@.len() == self.state.view().num_domains(),
        ensures
            r == self.state.propagators.all_hold(assignment_of(values@)),
    {
        let store = &self.state.propagators.propagators;
        let mut i: usize = 0;
        while i < store.len()
            invariant
                self.state.wf(),
                store@ == self.state.propagators.propagators@,
                values@.len() == self.state.view().num_domains(),
                i <= store@.len(),
                forall|k: int| 0 <= k < i ==> (#[trigger] store@[k]).holds(assignment_of(values@)),
            decreases store.len() - i,
        {
            assert(store@[i as int].wf(self.state.view()));
            let holds = match &store[i] {
                Propagator::LinearLessOrEqual(propagator) => {
                    assert forall|k: int| 0 <= k < propagator.inequality.lhs@.len() implies ((
                    #[trigger] propagator.inequality.lhs@[k]).0.id as int) < values@.len() by {
                        assert(self.state.view().is_valid_domain(propagator.inequality.lhs@[k].0));
                    }
                    holds_for(&propagator.inequality, values)
                },
                Propagator::LinearInequalityLiteral(propagator) => {
                    assert forall|k: int| 0 <= k < propagator.linear_inequality.lhs@.len() implies ((
                    #[trigger] propagator.linear_inequality.lhs@[k]).0.id as int) < values@.len() by {
                        assert(self.state.view().is_valid_domain(
                            propagator.linear_inequality.lhs@[k].0,
                        ));
                    }
                    let inequality_holds = holds_for(&propagator.linear_inequality, values);
                    let literal = values[propagator.literal.id as usize];
                    (literal < 1 || inequality_holds) && (literal > 0 || !inequality_holds)
                },
            };
            if !holds {
                return false;
            }
            i += 1;
        }
        true
    }

    /// Where this solver has no solution, an earlier one with the same
    /// variables and constraints of the same solutions had none.
    proof fn lemma_no_solution_before(&self, earlier: &Solver<Resolver>)
        requires
            self.state.has_no_solution(),
            self.state.view().initial_bounds == earlier.state.view().initial_bounds,
            same_solutions(&earlier.state, &self.state),
        ensures
            earlier.state.has_no_solution(),
    {
        assert forall|assignment: spec_fn(DomainId) -> int|
            !#[trigger] is_solution(assignment, &earlier.state.propagators, earlier.state.view()) by {
            lemma_same_solutions(
                assignment,
                &earlier.state.propagators,
                earlier.state.view(),
                self.state.view(),
            );
            assert(earlier.state.propagators.all_hold(assignment) <==> self.state.propagators.all_hold(
                assignment,
            ));
            assert(!is_solution(assignment, &self.state.propagators, self.state.view()));
        }
    }

    /// The least value of every domain.
    fn least_values(&self) -> (r: Vec<i32>)
        requires
            self.state.wf(),
        ensures
            r@ == least_values_of(self.state.view()),
            r@.len() == self.state.view().num_domains(),
            forall|i: int|
                0 <= i < r@.len() ==> (#[trigger] r@[i]) == self.state.view().lower_bound(
                    DomainId { id: i as u32 },
                ),
    {
        let count = self.state.engine.assignments_integer.num_domains();
        let mut values: Vec<i32> = Vec::new();
        let mut i: u32 = 0;
        while i < count
            invariant
                self.state.wf(),
                count == self.state.view().num_domains(),
                i <= count,
                values@.len() == i,
                forall|k: int|
                    0 <= k < i ==> (#[trigger] values@[k]) == self.state.view().lower_bound(
                        DomainId { id: k as u32 },
                    ),
            decreases count - i,
        {
            values.push(self.state.engine.assignments_integer.get_lower_bound(DomainId { id: i }));
            i += 1;
        }
        proof {
            assert(values@ =~= least_values_of(self.state.view()));
        }
        values
    }

    /// The first variable that is not fixed; `None` where every variable
    /// is fixed.
    fn first_open_variable(&self) -> (r: Option<DomainId>)
        requires
            self.state.wf(),
        ensures
            r == first_open_from(self.state.view(), 0),
            r matches Some(x) ==> self.state.view().is_valid_domain(x) && self.state.view().lower_bound(
                x,
            ) != self.state.view().upper_bound(x) && forall|y: DomainId|
                y.id < x.id ==> #[trigger] self.state.view().lower_bound(y)
                    == self.state.view().upper_bound(y),
            r is None ==> forall|y: DomainId|
                self.state.view().is_valid_domain(y) ==> #[trigger] self.state.view().lower_bound(y)
                    == self.state.view().upper_bound(y),
    {
        let count = self.state.engine.assignments_integer.num_domains();
        let mut i: u32 = 0;
        while i < count
            invariant
                self.state.wf(),
                count == self.state.view().num_domains(),
                i <= count,
                forall|y: DomainId|
                    y.id < i ==> #[trigger] self.state.view().lower_bound(y)
                        == self.state.view().upper_bound(y),
                first_open_from(self.state.view(), i as nat) == first_open_from(self.state.view(), 0),
            decreases count - i,
        {
            let x = DomainId { id: i };
            if !self.state.engine.assignments_integer.is_domain_assigned(x) {
                return Some(x);
            }
            i += 1;
        }
        None
    }

    /// What the search does once propagation has come to rest and the
    /// strategy has picked `selected`, or nothing. Where nothing is picked
    /// and the least values of the domains satisfy every constraint, they
    /// are the solution. Otherwise the variable to decide on is the one
    /// picked, or else the first that is not fixed: where there is none, or
    /// no further level can be opened, the answer is `Unknown`; else a new
    /// level is opened, with the decision that the variable takes its least
    /// value, and there is no answer yet.
    pub fn branch_on(&mut self, selected: Option<DomainId>) -> (r: Option<SatisfactionResult>)
        requires
            old(self).wf(),
            selected matches Some(x) ==> old(self).state.view().is_valid_domain(x),
        ensures
            final(self).wf(),
            final(self).infeasible == old(self).infeasible,
            final(self).steps == old(self).steps,
            final(self).state.propagators == old(self).state.propagators,
            final(self).state.view().initial_bounds == old(self).state.view().initial_bounds,
            old(self).is_solved_by_least_values(selected) ==> r is Some && r->0 is Satisfiable && r->0->Satisfiable_0.values@
                == least_values_of(old(self).state.view()),
            !old(self).is_solved_by_least_values(selected) && (old(self).branching_variable(selected)
                is None || old(self).state.view().decision_level == u32::MAX) ==> r == Some(
                SatisfactionResult::Unknown,
            ),
            r is Some ==> final(self).state.view() == old(self).state.view() && final(self).state.decisions
                == old(self).state.decisions,
            !old(self).is_solved_by_least_values(selected) && old(self).branching_variable(selected)
                is Some && old(self).state.view().decision_level < u32::MAX ==> {
                let x = old(self).branching_variable(selected)->0;
                let decision = Predicate::UpperBound {
                    domain_id: x,
                    upper_bound: old(self).state.view().state(x).lower_bound,
                };
                &&& r is None
                &&& final(self).state.decisions@ == old(self).state.decisions@.push(decision)
                &&& final(self).state.view() == old(self).state.view().with_level(
                    (old(self).state.view().decision_level + 1) as u32,
                ).apply_predicate(decision, None).0
            },
    {
        let variable = match selected {
            Some(x) => Some(x),
            None => {
                let values = self.least_values();
                if self.check_solution(&values) {
                    return Some(SatisfactionResult::Satisfiable(Solution { values }));
                }
                self.first_open_variable()
            },
        };
        match variable {
            Some(x) => {
                if self.state.engine.assignments_integer.get_decision_level() == u32::MAX {
                    return Some(SatisfactionResult::Unknown);
                }
                let least = self.state.engine.assignments_integer.get_lower_bound(x);
                let decided = self.state.decide(Predicate::UpperBound { domain_id: x, upper_bound: least });
                proof {
                    lemma_apply_predicate_keeps_variables(
                        old(self).state.view().with_level(
                            (old(self).state.view().decision_level + 1) as u32,
                        ),
                        Predicate::UpperBound { domain_id: x, upper_bound: least },
                        None,
                    );
                    if self.infeasible {
                        assert forall|assignment: spec_fn(DomainId) -> int|
                            !#[trigger] is_solution(
                                assignment,
                                &self.state.propagators,
                                self.state.view(),
                            ) by {
                            lemma_same_solutions(
                                assignment,
                                &self.state.propagators,
                                old(self).state.view(),
                                self.state.view(),
                            );
                        }
                    }
                }
                None
            },
            None => Some(SatisfactionResult::Unknown),
        }
    }

    /// Searches for a solution, for at most `max_steps` steps, each a
    /// propagation to the fixpoint followed by a decision or by the
    /// resolution of a conflict. The variable to decide on is the one that
    /// `brancher` picks, and it is fixed to its least value; a conflict is
    /// handed to the conflict resolver. A solution that is returned gives
    /// every variable a value of its initial domain and satisfies every
    /// constraint that was posted. Where the answer is that there is no
    /// solution, no assignment gives every variable a value of its initial
    /// domain and satisfies every constraint. With no step allowed, the
    /// answer is `Unknown` unless the problem is known to have no solution.
    /// The answer is `Unknown` only where all the steps were taken, where
    /// no further level can be opened, or where every variable is fixed
    /// and the values do not satisfy the constraints. Two answers are owed
    /// whatever the strategy and the resolver do, given a step: the values
    /// of the variables where all are fixed and the values satisfy every
    /// constraint; and, for a solver that is awake and at the root level,
    /// that there is no solution where a linear inequality cannot hold in
    /// the domains.
    pub fn satisfy<Brancher: VariableSelector>(&mut self, brancher: &mut Brancher, max_steps: u64) -> (r:
        SatisfactionResult)
        requires
            old(self).wf(),
            old(brancher).valid_for(old(self).state.view()),
        ensures
            final(self).wf(),
            r is Unsatisfiable ==> old(self).state.has_no_solution() && final(self).infeasible,
            final(self).state.view().initial_bounds == old(self).state.view().initial_bounds,
            same_solutions(&old(self).state, &final(self).state),
            r matches SatisfactionResult::Satisfiable(solution) ==> {
                &&& solution.values@.len() == old(self).state.view().num_domains()
                &&& old(self).state.propagators.all_hold(solution.assignment())
                &&& forall|x: DomainId|
                    old(self).state.view().is_valid_domain(x) ==> old(self).state.view().initial_lower_bound(x) <= #[trigger] solution.assignment()(x)
                        <= old(self).state.view().initial_upper_bound(x)
            },
            old(self).infeasible ==> r is Unsatisfiable,
            !old(self).infeasible && max_steps == 0 ==> r is Unknown,
            r is Unknown ==> {
                ||| final(self).steps == summed(old(self).steps, max_steps as int)
                ||| final(self).state.view().decision_level == u32::MAX
                ||| final(self).is_stuck()
            },
            !old(self).infeasible && max_steps > 0 && old(self).is_solved() ==> r is Satisfiable
                && r->Satisfiable_0.values@ == least_values_of(old(self).state.view())
                && final(self).state.view() == old(self).state.view(),
            !old(self).infeasible && max_steps > 0 && old(self).is_awake()
                && old(self).state.view().decision_level == 0 && old(self).has_violated_inequality()
                ==> r is Unsatisfiable,
    {
        if self.infeasible {
            return SatisfactionResult::Unsatisfiable;
        }
        let mut steps = max_steps;
        while steps > 0
            invariant
                !old(self).infeasible,
                !self.infeasible,
                steps <= max_steps,
                self.steps == summed(old(self).steps, max_steps - steps),
                steps == max_steps ==> self.state == old(self).state,
                steps < max_steps ==> !old(self).is_solved() && !(old(self).is_awake()
                    && old(self).state.view().decision_level == 0
                    && old(self).has_violated_inequality()),
                self.wf(),
                self.state.view().initial_bounds == old(self).state.view().initial_bounds,
                same_solutions(&old(self).state, &self.state),
                brancher.valid_for(self.state.view()),
            decreases steps,
        {
            let ghost first = steps == max_steps;
            steps -= 1;
            self.steps = count_up(self.steps, 1);
            let ghost before = self.state;
            let status = propagate_to_fixpoint(
                &mut self.state.engine,
                &self.state.propagators,
                &mut self.state.reason_store,
            );
            proof {
                brancher.lemma_valid_for_any_store_of_that_size(before.view(), self.state.view());
                before.engine.assignments_integer.lemma_view_wf();
                self.lemma_propagation_keeps_solutions(before.view(), status is Err);
                if first && old(self).is_solved() {
                    let s = before.view();
                    lemma_least_values_within(s);
                    lemma_none_open(s, 0);
                    lemma_fixed_has_no_width(s, s.num_domains());
                    self.state.engine.assignments_integer.lemma_view_wf();
                    lemma_width_nonnegative(self.state.view(), self.state.view().num_domains());
                    assert(status is Ok);
                    assert(self.state.view() == s);
                }
                if first && old(self).is_awake() && old(self).has_violated_inequality() {
                    let s = before.view();
                    let t = self.state.view();
                    let i = choose|i: int|
                        0 <= i < before.propagators.propagators@.len() && (
                        #[trigger] before.propagators.propagators@[i]) is LinearLessOrEqual && is_violated(
                            &before.propagators.propagators@[i]->LinearLessOrEqual_0.inequality,
                            s,
                        );
                    let inequality = &before.propagators.propagators@[i]->LinearLessOrEqual_0.inequality;
                    let terms = inequality.lhs@;
                    assert(before.propagators.propagators@[i].wf(s));
                    assert forall|k: int| 0 <= k < terms.len() implies t.lower_bound(
                        (#[trigger] terms[k]).0,
                    ) >= s.lower_bound(terms[k].0) && t.upper_bound(terms[k].0) <= s.upper_bound(
                        terms[k].0,
                    ) by {
                        assert(s.is_valid_domain(terms[k].0));
                        assert(t.lower_bound(terms[k].0) >= s.lower_bound(terms[k].0));
                    }
                    lemma_least_value_grows(terms, s, t);
                    if status is Ok {
                        assert(settled(inequality, t));
                    }
                    assert(status is Err);
                }
            }
            match status {
                Err(info) => {
                    if self.state.engine.assignments_integer.get_decision_level() == 0 {
                        self.infeasible = true;
                        proof {
                            self.lemma_no_solution_before(old(self));
                        }
                        return SatisfactionResult::Unsatisfiable;
                    }
                    self.state.record_conflict(info);
                    let ghost analysed = self.state;
                    let result = self.conflict_resolver.resolve_conflict(&mut self.state);
                    let ghost resolved = self.state;
                    let processed = self.conflict_resolver.process(&mut self.state, &result);
                    proof {
                        brancher.lemma_valid_for_any_store_of_that_size(
                            before.view(),
                            self.state.view(),
                        );
                        assert forall|assignment: spec_fn(DomainId) -> int| #[trigger]
                            old(self).state.propagators.all_hold(assignment)
                                <==> self.state.propagators.all_hold(assignment) by {
                            assert(before.propagators.all_hold(assignment)
                                <==> old(self).state.propagators.all_hold(assignment));
                            assert(resolved.propagators.all_hold(assignment)
                                <==> self.state.propagators.all_hold(assignment));
                        }
                    }
                    if processed.is_err() {
                        self.infeasible = true;
                        proof {
                            self.lemma_no_solution_before(old(self));
                        }
                        return SatisfactionResult::Unsatisfiable;
                    }
                },
                Ok(_) => {
                    let selected = {
                        let context = SelectionContext::new(&self.state.engine.assignments_integer);
                        brancher.select_variable(&context)
                    };
                    let ghost undecided = *self;
                    match self.branch_on(selected) {
                        Some(result) => {
                            let ghost answer = result;
                            proof {
                                match answer {
                                    SatisfactionResult::Satisfiable(solution) => {
                                        self.state.engine.assignments_integer.lemma_view_wf();
                                        assert forall|x: DomainId|
                                            old(self).state.view().is_valid_domain(x) implies old(self).state.view().initial_lower_bound(x)
                                            <= #[trigger] solution.assignment()(x) <= old(self).state.view().initial_upper_bound(x) by {
                                            let s = self.state.view();
                                            assert(s.is_valid_domain(x));
                                            assert(solution.values@[x.id as int] == s.lower_bound(
                                                DomainId { id: x.id },
                                            ));
                                            lemma_bounds_monotone(s, x, 0, s.trail.len());
                                            assert(s.state_at(x, s.trail.len()).consistent());
                                        }
                                    },
                                    _ => {},
                                }
                            }
                            return result;
                        },
                        None => {
                            proof {
                                brancher.lemma_valid_for_any_store_of_that_size(
                                    undecided.state.view(),
                                    self.state.view(),
                                );
                            }
                        },
                    }
                },
            }
        }
        SatisfactionResult::Unknown
    }
}

} // verus!
