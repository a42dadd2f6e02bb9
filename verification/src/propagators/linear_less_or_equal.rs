//! Bound propagation for one linear inequality.

use vstd::prelude::*;
use crate::basic_types::arithmetic::lemma_i32_product_bounds;
use crate::engine::propagation::waking::lemma_wakes_transitive;
use crate::engine::propagation::waking::wakes;
use vstd::arithmetic::div_mod::lemma_fundamental_div_mod;
use crate::basic_types::domain_id::DomainId;
use crate::basic_types::linear_less_or_equal::LinearLessOrEqual;
use crate::basic_types::linear_less_or_equal::term_lower_bound_after;
use crate::basic_types::linear_terms::lemma_lower_bound_sum_congruent;
use crate::basic_types::linear_terms::lower_bound_sum;
use crate::basic_types::linear_terms::term_lower_bound;
use crate::basic_types::linear_terms::term_upper_bound;
use crate::basic_types::stored_conflict_info::StoredConflictInfo;
use crate::engine::assignments_laws::lemma_tighten_lower_bound_result;
use crate::engine::assignments_laws::lemma_tighten_upper_bound_result;
use crate::engine::assignments_view::AssignmentsView;
use crate::engine::cp_engine_data_structures::CPEngineDataStructures;
use crate::engine::domain_width::extends;
use crate::engine::flattened_variable::FlattenedVariable;
use crate::engine::domain_width::lemma_extends_reflexive;
use crate::engine::domain_width::lemma_extends_transitive;
use crate::engine::domain_width::lemma_same_or_narrower_chain;
use crate::engine::domain_width::lemma_tighten_lower_bound_extends;
use crate::engine::domain_width::lemma_tighten_upper_bound_extends;
use crate::engine::domain_width::same_or_narrower;
use crate::engine::propagation::store::PropagatorStore;
use crate::engine::propagator_queue::PropagatorId;
use crate::engine::reason_store::Reason;
use crate::engine::reason_store::ReasonStore;
use crate::basic_types::linear_terms::terms_valid;
use crate::engine::solutions::lemma_divide_by_positive;
use crate::engine::solutions::lemma_sum_within_bounds;
use crate::engine::solutions::lemma_tighten_lower_bound_keeps;
use crate::engine::solutions::lemma_tighten_upper_bound_keeps;
use crate::engine::solutions::within;
use crate::basic_types::domain_events::DomainEvents;
use crate::basic_types::domain_events::IntDomainEvent;
use crate::basic_types::variables::AffineView;
use crate::engine::watch_list_cp::LocalId;
use crate::engine::watch_list_cp::PropagatorVarId;
use crate::engine::watch_list_cp::WatchListCP;

verus! {

/// Propagates `a1*x1 + ... + an*xn <= rhs`.
#[derive(Debug)]
pub struct LinearLessOrEqualPropagator {
    pub inequality: LinearLessOrEqual,
}

/// The least value of the left-hand side in the current domains.
pub open spec fn current_lower_bound_sum(inequality: &LinearLessOrEqual, s: AssignmentsView) -> int {
    lower_bound_sum(inequality.lhs@, s, s.trail.len())
}

/// The inequality cannot hold in the current domains.
pub open spec fn is_violated(inequality: &LinearLessOrEqual, s: AssignmentsView) -> bool {
    current_lower_bound_sum(inequality, s) > inequality.rhs
}

/// The inequality removes nothing from the current domains: every term's
/// greatest value is within what the others' least values leave to it.
pub open spec fn at_fixpoint(inequality: &LinearLessOrEqual, s: AssignmentsView) -> bool {
    forall|k: int|
        0 <= k < inequality.lhs@.len() ==> #[trigger] term_upper_bound(
            inequality.lhs@[k],
            s,
            s.trail.len(),
        ) <= inequality.rhs - current_lower_bound_sum(inequality, s) + term_lower_bound(
            inequality.lhs@[k],
            s,
            s.trail.len(),
        )
}

/// For a positive coefficient: a bound at most `lower + slack / a` keeps the
/// term within `a * lower + slack`.
proof fn lemma_upper_bound_suffices(a: int, lower: int, upper: int, slack: int)
    requires
        a > 0,
        slack >= 0,
        upper <= lower + slack / a,
    ensures
        a * upper <= slack + a * lower,
{
    lemma_fundamental_div_mod(slack, a);
    let q = slack / a;
    assert(a * upper <= a * lower + a * q) by (nonlinear_arith)
        requires
            a > 0,
            upper <= lower + q,
    ;
}

/// For a negative coefficient: a bound at least `upper - slack / |a|` keeps
/// the term within `a * upper + slack`.
proof fn lemma_lower_bound_suffices(a: int, lower: int, upper: int, slack: int)
    requires
        a < 0,
        slack >= 0,
        lower >= upper - slack / (-a),
    ensures
        a * lower <= slack + a * upper,
{
    lemma_fundamental_div_mod(slack, -a);
    let q = slack / (-a);
    assert(a * lower <= a * upper + (-a) * q) by (nonlinear_arith)
        requires
            a < 0,
            lower >= upper - q,
    ;
}

/// The event that can raise the least value of a term with the coefficient
/// `scale`: the lower bound of its variable, or, for a negative coefficient,
/// the upper bound.
pub open spec fn watched_event(scale: i32) -> IntDomainEvent {
    if scale < 0 {
        IntDomainEvent::UpperBound
    } else {
        IntDomainEvent::LowerBound
    }
}

/// Term `i` is the term of `y`, and `event` is the event watched for it.
pub open spec fn watches(terms: Seq<(DomainId, i32)>, i: int, y: DomainId, event: IntDomainEvent) -> bool {
    0 <= i < terms.len() && terms[i].0 == y && event == watched_event(terms[i].1)
}

/// An inequality that is violated in the domains holds of no assignment
/// within them.
pub proof fn lemma_violated_has_no_solution(inequality: &LinearLessOrEqual, s: AssignmentsView)
    requires
        inequality.valid_for(s),
        is_violated(inequality, s),
    ensures
        forall|assignment: spec_fn(DomainId) -> int|
            !(inequality.holds(assignment) && #[trigger] within(assignment, s)),
{
    assert forall|assignment: spec_fn(DomainId) -> int|
        !(inequality.holds(assignment) && #[trigger] within(assignment, s)) by {
        if within(assignment, s) {
            lemma_sum_within_bounds(inequality.lhs@, s, assignment);
        }
    }
}

impl LinearLessOrEqualPropagator {
    /// Registers the propagator, known to the engine as `id`, for the
    /// changes that can raise the least value of its left-hand side: for
    /// each term, as variable number `i` of the propagator, the event
    /// `watched_event` of its coefficient. Nothing else is registered.
    pub fn initialise_at_root(&self, id: PropagatorId, watchers: &mut WatchListCP)
        requires
            self.inequality.wf(),
            forall|i: int|
                0 <= i < self.inequality.lhs@.len() ==> ((
                #[trigger] self.inequality.lhs@[i]).0.id as int) < old(watchers).num_domains(),
            self.inequality.lhs@.len() <= u32::MAX,
        ensures
            final(watchers).num_domains() == old(watchers).num_domains(),
            forall|y: DomainId, event: IntDomainEvent|
                (y.id as int) < old(watchers).num_domains() && (forall|i: int|
                    !watches(self.inequality.lhs@, i, y, event)) ==> #[trigger] final(watchers).watchers_of(y, event) == old(watchers).watchers_of(y, event),
            forall|y: DomainId, event: IntDomainEvent, i: int|
                (y.id as int) < old(watchers).num_domains() && #[trigger] watches(
                    self.inequality.lhs@,
                    i,
                    y,
                    event,
                ) ==> #[trigger] final(watchers).watchers_of(y, event) == old(watchers).watchers_of(
                    y,
                    event,
                ).push(PropagatorVarId { propagator: id, variable: LocalId(i as u32) }),
    {
        let ghost terms = self.inequality.lhs@;
        let vars = self.inequality.to_vars();
        let mut k: usize = 0;
        while k < vars.len()
            invariant
                k <= vars@.len(),
                terms == self.inequality.lhs@,
                self.inequality.wf(),
                vars@.len() == terms.len(),
                vars@.len() <= u32::MAX,
                watchers.num_domains() == old(watchers).num_domains(),
                forall|i: int|
                    0 <= i < terms.len() ==> #[trigger] vars@[i] == (AffineView {
                        inner: terms[i].0,
                        scale: terms[i].1,
                        offset: 0,
                    }),
                forall|i: int| 0 <= i < terms.len() ==> ((#[trigger] terms[i]).0.id as int) < watchers.num_domains(),
                forall|y: DomainId, event: IntDomainEvent|
                    (y.id as int) < old(watchers).num_domains() && (forall|i: int|
                        0 <= i < k ==> !watches(terms, i, y, event)) ==> #[trigger] watchers.watchers_of(
                        y,
                        event,
                    ) == old(watchers).watchers_of(y, event),
                forall|y: DomainId, event: IntDomainEvent, i: int|
                    (y.id as int) < old(watchers).num_domains() && 0 <= i < k && #[trigger] watches(
                        terms,
                        i,
                        y,
                        event,
                    ) ==> #[trigger] watchers.watchers_of(y, event) == old(watchers).watchers_of(
                        y,
                        event,
                    ).push(PropagatorVarId { propagator: id, variable: LocalId(i as u32) }),
            decreases vars.len() - k,
        {
            let view = vars[k];
            assert(vars@[k as int].inner == terms[k as int].0);
            assert(terms[k as int].1 != 0);
            let propagator_var = PropagatorVarId { propagator: id, variable: LocalId(k as u32) };
            let ghost before = *watchers;
            let events = DomainEvents::only(IntDomainEvent::LowerBound);
            view.watch_all(watchers, propagator_var, events);
            proof {
                let here = k as int;
                assert(view.scale == terms[here].1);
                assert forall|event: IntDomainEvent|
                    view.spec_inner_events(events).has(event) <==> event == watched_event(
                        terms[here].1,
                    ) by {}
                assert forall|y: DomainId, event: IntDomainEvent|
                    (y.id as int) < old(watchers).num_domains() && (forall|i: int|
                        0 <= i < k + 1 ==> !watches(terms, i, y, event)) implies #[trigger] watchers.watchers_of(
                    y,
                    event,
                ) == old(watchers).watchers_of(y, event) by {
                    assert(!watches(terms, here, y, event));
                    assert forall|i: int| 0 <= i < k implies !watches(terms, i, y, event) by {}
                    assert(before.watchers_of(y, event) == old(watchers).watchers_of(y, event));
                }
                assert forall|y: DomainId, event: IntDomainEvent, i: int|
                    (y.id as int) < old(watchers).num_domains() && 0 <= i < k + 1 && #[trigger] watches(
                        terms,
                        i,
                        y,
                        event,
                    ) implies #[trigger] watchers.watchers_of(y, event) == old(watchers).watchers_of(
                    y,
                    event,
                ).push(PropagatorVarId { propagator: id, variable: LocalId(i as u32) }) by {
                    if i < k {
                        assert(terms[i].0 != terms[here].0);
                        assert(!watches(terms, here, y, event));
                        assert(before.watchers_of(y, event) == old(watchers).watchers_of(y, event).push(
                            PropagatorVarId { propagator: id, variable: LocalId(i as u32) },
                        ));
                    } else {
                        assert forall|j: int| 0 <= j < k implies !watches(terms, j, y, event) by {
                            if watches(terms, j, y, event) {
                                assert(terms[j].0 != terms[here].0);
                            }
                        }
                        assert(before.watchers_of(y, event) == old(watchers).watchers_of(y, event));
                    }
                }
            }
            k += 1;
        }
        proof {
            assert forall|y: DomainId, event: IntDomainEvent|
                (y.id as int) < old(watchers).num_domains() && (forall|i: int|
                    !watches(terms, i, y, event)) implies #[trigger] watchers.watchers_of(y, event) == old(watchers).watchers_of(y, event) by {
                assert forall|i: int| 0 <= i < k implies !watches(terms, i, y, event) by {}
            }
        }
    }

    pub fn new(inequality: LinearLessOrEqual) -> (r: LinearLessOrEqualPropagator)
        ensures
            r.inequality == inequality,
    {
        LinearLessOrEqualPropagator { inequality }
    }

    /// The propagator of a learned inequality.
    pub fn new_learned(inequality: LinearLessOrEqual) -> (r: LinearLessOrEqualPropagator)
        ensures
            r.inequality == inequality,
    {
        LinearLessOrEqualPropagator { inequality }
    }

    pub fn priority(&self) -> (r: u32)
        ensures
            r == 2,
    {
        2
    }

    /// The constraint as flattened variables and a bound: their sum is at
    /// most the bound.
    pub fn get_linear_constraint(&self) -> (r: (Vec<FlattenedVariable>, i32))
        ensures
            r.1 == self.inequality.rhs,
            r.0@.len() == self.inequality.lhs@.len(),
            forall|i: int|
                0 <= i < r.0@.len() ==> (#[trigger] r.0@[i]).id == self.inequality.lhs@[i].0 && r.0@[i].scale
                    == self.inequality.lhs@[i].1 && r.0@[i].offset == 0,
    {
        let mut variables: Vec<FlattenedVariable> = Vec::new();
        let mut i: usize = 0;
        while i < self.inequality.lhs.0.len()
            invariant
                i <= self.inequality.lhs@.len(),
                variables@.len() == i,
                forall|k: int|
                    0 <= k < i ==> (#[trigger] variables@[k]).id == self.inequality.lhs@[k].0
                        && variables@[k].scale == self.inequality.lhs@[k].1 && variables@[k].offset == 0,
            decreases self.inequality.lhs.0.len() - i,
        {
            let term = self.inequality.lhs.0[i];
            variables.push(FlattenedVariable::new(term.0, term.1, 0));
            i += 1;
        }
        (variables, self.inequality.rhs)
    }

    /// The inequality itself explains whatever the propagator infers.
    pub fn linear_inequality_explanation(&self) -> (r: Option<LinearLessOrEqual>)
        ensures
            r is Some,
            r->0.lhs@ == self.inequality.lhs@,
            r->0.rhs == self.inequality.rhs,
    {
        Some(self.inequality.duplicate())
    }

    /// The least value of the left-hand side in the current domains.
    fn lower_bound_of_lhs(&self, engine: &CPEngineDataStructures) -> (r: i128)
        requires
            engine.wf(),
            self.inequality.valid_for(engine.assignments_integer@),
        ensures
            r == current_lower_bound_sum(&self.inequality, engine.assignments_integer@),
            -0x4000_0000_0000_0000 * self.inequality.lhs@.len() <= r <= 0x4000_0000_0000_0000
                * self.inequality.lhs@.len(),
    {
        let terms = &self.inequality.lhs.0;
        let n = engine.assignments_integer.num_trail_entries();
        let mut sum: i128 = 0;
        let mut i: usize = 0;
        while i < terms.len()
            invariant
                engine.wf(),
                self.inequality.valid_for(engine.assignments_integer@),
                terms@ == self.inequality.lhs@,
                n == engine.assignments_integer@.trail.len(),
                i <= terms@.len(),
                sum == lower_bound_sum(terms@.take(i as int), engine.assignments_integer@, n as nat),
                -0x4000_0000_0000_0000 * i <= sum <= 0x4000_0000_0000_0000 * i,
            decreases terms.len() - i,
        {
            let term = terms[i];
            assert(engine.assignments_integer@.is_valid_domain(terms@[i as int].0));
            let value = term_lower_bound_after(term.0, term.1, &engine.assignments_integer, n);
            proof {
                assert(terms@.take(i + 1).drop_last() =~= terms@.take(i as int));
                let s = engine.assignments_integer@;
                if term.1 < 0 {
                    lemma_i32_product_bounds(term.1 as int, s.upper_bound_at(term.0, n as nat));
                } else {
                    lemma_i32_product_bounds(term.1 as int, s.lower_bound_at(term.0, n as nat));
                }
            }
            sum = sum + value as i128;
            i += 1;
        }
        proof {
            assert(terms@.take(terms@.len() as int) =~= terms@);
        }
        sum
    }

    /// Narrows the domains as far as the inequality allows: fails, changing
    /// nothing, where the inequality cannot hold; otherwise leaves every
    /// variable with the bound that the least values of the others imply,
    /// after which the inequality removes nothing more.
    pub fn propagate(
        &self,
        id: PropagatorId,
        engine: &mut CPEngineDataStructures,
        cp_propagators: &PropagatorStore,
        reason_store: &mut ReasonStore,
    ) -> (r: Result<(), StoredConflictInfo>)
        requires
            old(engine).wf(),
            self.inequality.wf(),
            self.inequality.valid_for(old(engine).assignments_integer@),
        ensures
            final(engine).wf(),
            final(engine).watch_list_cp == old(engine).watch_list_cp,
            extends(old(engine).assignments_integer@, final(engine).assignments_integer@),
            same_or_narrower(old(engine).assignments_integer@, final(engine).assignments_integer@),
            final(engine).assignments_integer@ == old(engine).assignments_integer@ ==> final(engine).propagator_queue@ == old(engine).propagator_queue@,
            r is Err <==> is_violated(&self.inequality, old(engine).assignments_integer@),
            r is Err ==> r == Err::<(), StoredConflictInfo>(
                StoredConflictInfo::Propagator { propagator_id: id },
            ) && final(engine).assignments_integer@ == old(engine).assignments_integer@,
            r is Ok ==> at_fixpoint(&self.inequality, final(engine).assignments_integer@),
            r is Ok ==> !is_violated(&self.inequality, final(engine).assignments_integer@),
            wakes(
                &old(engine).watch_list_cp,
                cp_propagators.priorities@,
                old(engine).assignments_integer@,
                old(engine).propagator_queue@,
                final(engine).assignments_integer@,
                final(engine).propagator_queue@,
            ),
            forall|assignment: spec_fn(DomainId) -> int|
                self.inequality.holds(assignment) && within(assignment, old(engine).assignments_integer@)
                    ==> #[trigger] within(assignment, final(engine).assignments_integer@),
            r is Err ==> forall|assignment: spec_fn(DomainId) -> int|
                !(self.inequality.holds(assignment) && #[trigger] within(
                    assignment,
                    old(engine).assignments_integer@,
                )),
    {
        let count: usize = self.inequality.lhs.len();
        let lb_lhs = self.lower_bound_of_lhs(engine);
        if lb_lhs > self.inequality.rhs as i128 {
            proof {
                lemma_extends_reflexive(engine.assignments_integer@);
                lemma_violated_has_no_solution(&self.inequality, engine.assignments_integer@);
            }
            return Err(StoredConflictInfo::Propagator { propagator_id: id });
        }
        let slack: i128 = self.inequality.rhs as i128 - lb_lhs;
        let reason = reason_store.push(Reason::Propagator(id));
        let ghost start = engine.assignments_integer@;
        let ghost terms = self.inequality.lhs@;
        proof {
            lemma_extends_reflexive(start);
            engine.assignments_integer.lemma_view_wf();
        }
        let mut i: usize = 0;
        while i < self.inequality.lhs.0.len()
            invariant
                engine.wf(),
                start == old(engine).assignments_integer@,
                start.wf(),
                engine.watch_list_cp == old(engine).watch_list_cp,
                self.inequality.wf(),
                self.inequality.valid_for(start),
                terms == self.inequality.lhs@,
                extends(start, engine.assignments_integer@),
                same_or_narrower(start, engine.assignments_integer@),
                engine.assignments_integer@ == start ==> engine.propagator_queue@ == old(engine).propagator_queue@,
                wakes(
                    &engine.watch_list_cp,
                    cp_propagators.priorities@,
                    start,
                    old(engine).propagator_queue@,
                    engine.assignments_integer@,
                    engine.propagator_queue@,
                ),
                lb_lhs == lower_bound_sum(terms, start, start.trail.len()),
                forall|assignment: spec_fn(DomainId) -> int|
                    self.inequality.holds(assignment) && within(assignment, start) ==> #[trigger] within(
                        assignment,
                        engine.assignments_integer@,
                    ),
                slack == self.inequality.rhs - lb_lhs,
                0 <= slack <= 0x4000_0000_0000_0000_0000_0000_0000_0000 + 0x8000_0000,
                i <= terms.len(),
                forall|k: int|
                    0 <= k < terms.len() ==> #[trigger] term_lower_bound(
                        terms[k],
                        engine.assignments_integer@,
                        engine.assignments_integer@.trail.len(),
                    ) == term_lower_bound(terms[k], start, start.trail.len()),
                forall|k: int|
                    0 <= k < i ==> #[trigger] term_upper_bound(
                        terms[k],
                        engine.assignments_integer@,
                        engine.assignments_integer@.trail.len(),
                    ) <= slack + term_lower_bound(
                        terms[k],
                        engine.assignments_integer@,
                        engine.assignments_integer@.trail.len(),
                    ),
            decreases self.inequality.lhs.0.len() - i,
        {
            let term = self.inequality.lhs.0[i];
            let x = term.0;
            let a = term.1;
            let ghost before = engine.assignments_integer@;
            let ghost queue_before = engine.propagator_queue@;
            proof {
                engine.assignments_integer.lemma_view_wf();
                assert(start.is_valid_domain(terms[i as int].0));
                assert(before.is_valid_domain(x));
                assert(before.state_at(x, before.trail.len()).consistent());
            }
            let lower = engine.assignments_integer.get_lower_bound(x);
            let upper = engine.assignments_integer.get_upper_bound(x);
            if a > 0 {
                assert(0 <= slack / (a as i128) <= slack) by (nonlinear_arith)
                    requires
                        slack >= 0,
                        a >= 1,
                ;
                let bound: i128 = lower as i128 + slack / (a as i128);
                let target: i32 = if bound < upper as i128 {
                    bound as i32
                } else {
                    upper
                };
                proof {
                    lemma_tighten_upper_bound_result(before, x, target, Some(reason));
                    lemma_tighten_upper_bound_extends(before, x, target, Some(reason));
                }
                let outcome = engine.tighten_upper_bound(x, target, Some(reason), cp_propagators);
                proof {
                    let after = engine.assignments_integer@;
                    lemma_lower_bound_sum_congruent(
                        terms,
                        before,
                        before.trail.len(),
                        start,
                        start.trail.len(),
                    );
                    assert forall|assignment: spec_fn(DomainId) -> int|
                        self.inequality.holds(assignment) && within(
                            assignment,
                            start,
                        ) implies #[trigger] within(assignment, after) by {
                        assert(within(assignment, before));
                        assert(terms_valid(terms, before));
                        lemma_sum_within_bounds(terms, before, assignment);
                        let value = assignment(x);
                        assert(terms[i as int].1 * assignment(terms[i as int].0) == a * value);
                        assert(term_lower_bound(terms[i as int], before, before.trail.len()) == a
                            * lower);
                        assert(a * value <= slack + a * lower);
                        assert(before.contains(x, value));
                        if bound < upper as i128 {
                            assert(a * (value - lower) == a * value - a * lower) by (nonlinear_arith);
                            lemma_divide_by_positive(a as int, value - lower, slack as int);
                        }
                        lemma_tighten_upper_bound_keeps(before, x, target, Some(reason), assignment);
                    }
                    lemma_extends_transitive(start, before, after);
                    lemma_wakes_transitive(
                        &engine.watch_list_cp,
                        cp_propagators.priorities@,
                        start,
                        old(engine).propagator_queue@,
                        before,
                        queue_before,
                        after,
                        engine.propagator_queue@,
                    );
                    lemma_same_or_narrower_chain(start, before, after);
                    lemma_upper_bound_suffices(
                        a as int,
                        lower as int,
                        after.upper_bound(x),
                        slack as int,
                    );
                    assert forall|k: int| 0 <= k < terms.len() implies #[trigger] term_lower_bound(
                        terms[k],
                        after,
                        after.trail.len(),
                    ) == term_lower_bound(terms[k], start, start.trail.len()) by {
                        assert(term_lower_bound(terms[k], before, before.trail.len())
                            == term_lower_bound(terms[k], start, start.trail.len()));
                        assert(start.is_valid_domain(terms[k].0));
                        if terms[k].0 != x {
                            assert(after.state(terms[k].0) == before.state(terms[k].0));
                        } else {
                            if k < i {
                                assert(terms[k].0 != terms[i as int].0);
                            } else if k > i {
                                assert(terms[i as int].0 != terms[k].0);
                            }
                        }
                    }
                    assert forall|k: int| 0 <= k < i + 1 implies #[trigger] term_upper_bound(
                        terms[k],
                        after,
                        after.trail.len(),
                    ) <= slack + term_lower_bound(terms[k], after, after.trail.len()) by {
                        if k < i {
                            assert(terms[k].0 != terms[i as int].0);
                            assert(start.is_valid_domain(terms[k].0));
                            assert(after.state(terms[k].0) == before.state(terms[k].0));
                            assert(term_upper_bound(terms[k], before, before.trail.len()) <= slack
                                + term_lower_bound(terms[k], before, before.trail.len()));
                            assert(term_lower_bound(terms[k], before, before.trail.len())
                                == term_lower_bound(terms[k], start, start.trail.len()));
                        }
                    }
                }
            } else {
                assert(a != 0) by {
                    assert(terms[i as int].1 != 0);
                }
                let size: i128 = -(a as i128);
                assert(0 <= slack / size <= slack) by (nonlinear_arith)
                    requires
                        slack >= 0,
                        size >= 1,
                ;
                let bound: i128 = upper as i128 - slack / size;
                let target: i32 = if bound > lower as i128 {
                    bound as i32
                } else {
                    lower
                };
                proof {
                    lemma_tighten_lower_bound_result(before, x, target, Some(reason));
                    lemma_tighten_lower_bound_extends(before, x, target, Some(reason));
                }
                let outcome = engine.tighten_lower_bound(x, target, Some(reason), cp_propagators);
                proof {
                    let after = engine.assignments_integer@;
                    lemma_lower_bound_sum_congruent(
                        terms,
                        before,
                        before.trail.len(),
                        start,
                        start.trail.len(),
                    );
                    assert forall|assignment: spec_fn(DomainId) -> int|
                        self.inequality.holds(assignment) && within(
                            assignment,
                            start,
                        ) implies #[trigger] within(assignment, after) by {
                        assert(within(assignment, before));
                        assert(terms_valid(terms, before));
                        lemma_sum_within_bounds(terms, before, assignment);
                        let value = assignment(x);
                        assert(terms[i as int].1 * assignment(terms[i as int].0) == a * value);
                        assert(term_lower_bound(terms[i as int], before, before.trail.len()) == a
                            * upper);
                        assert(a * value <= slack + a * upper);
                        assert(before.contains(x, value));
                        if bound > lower as i128 {
                            assert((-a) * (upper - value) == a * value - a * upper) by (nonlinear_arith);
                            lemma_divide_by_positive(-(a as int), upper - value, slack as int);
                        }
                        lemma_tighten_lower_bound_keeps(before, x, target, Some(reason), assignment);
                    }
                    lemma_extends_transitive(start, before, after);
                    lemma_wakes_transitive(
                        &engine.watch_list_cp,
                        cp_propagators.priorities@,
                        start,
                        old(engine).propagator_queue@,
                        before,
                        queue_before,
                        after,
                        engine.propagator_queue@,
                    );
                    lemma_same_or_narrower_chain(start, before, after);
                    assert(a != 0) by {
                        assert(terms[i as int].1 != 0);
                    }
                    lemma_lower_bound_suffices(
                        a as int,
                        after.lower_bound(x),
                        upper as int,
                        slack as int,
                    );
                    assert forall|k: int| 0 <= k < terms.len() implies #[trigger] term_lower_bound(
                        terms[k],
                        after,
                        after.trail.len(),
                    ) == term_lower_bound(terms[k], start, start.trail.len()) by {
                        assert(term_lower_bound(terms[k], before, before.trail.len())
                            == term_lower_bound(terms[k], start, start.trail.len()));
                        assert(start.is_valid_domain(terms[k].0));
                        if terms[k].0 != x {
                            assert(after.state(terms[k].0) == before.state(terms[k].0));
                        } else {
                            if k < i {
                                assert(terms[k].0 != terms[i as int].0);
                            } else if k > i {
                                assert(terms[i as int].0 != terms[k].0);
                            }
                        }
                    }
                    assert forall|k: int| 0 <= k < i + 1 implies #[trigger] term_upper_bound(
                        terms[k],
                        after,
                        after.trail.len(),
                    ) <= slack + term_lower_bound(terms[k], after, after.trail.len()) by {
                        if k < i {
                            assert(terms[k].0 != terms[i as int].0);
                            assert(start.is_valid_domain(terms[k].0));
                            assert(after.state(terms[k].0) == before.state(terms[k].0));
                            assert(term_upper_bound(terms[k], before, before.trail.len()) <= slack
                                + term_lower_bound(terms[k], before, before.trail.len()));
                            assert(term_lower_bound(terms[k], before, before.trail.len())
                                == term_lower_bound(terms[k], start, start.trail.len()));
                        }
                    }
                }
            }
            i += 1;
        }
        proof {
            let end = engine.assignments_integer@;
            lemma_lower_bound_sum_congruent(terms, end, end.trail.len(), start, start.trail.len());
        }
        Ok(())
    }
}

} // verus!
