//! The propagator that ties a linear inequality to a variable that says
//! whether it holds: the variable is at least 1 exactly when the
//! inequality holds, and at most 0 exactly when it does not.

use vstd::prelude::*;
use crate::basic_types::domain_events::OpaqueDomainEvent;
use crate::engine::propagation::waking::lemma_wakes_chain;
use crate::engine::propagation::waking::wakes;
use crate::basic_types::domain_events::IntDomainEvent;
use crate::basic_types::arithmetic::div_ceil;
use crate::basic_types::arithmetic::div_floor;
use crate::basic_types::arithmetic::lemma_i32_product_bounds;
use crate::basic_types::domain_id::DomainId;
use crate::basic_types::linear_less_or_equal::LinearLessOrEqual;
use crate::basic_types::linear_less_or_equal::LinearLessOrEqualLhs;
use crate::basic_types::linear_less_or_equal::term_lower_bound_after;
use crate::basic_types::linear_less_or_equal::term_upper_bound_after;
use crate::basic_types::linear_terms::lower_bound_sum;
use crate::basic_types::linear_terms::mentions;
use crate::basic_types::linear_terms::upper_bound_sum;
use crate::basic_types::stored_conflict_info::StoredConflictInfo;
use crate::basic_types::variables::AffineView;
use crate::basic_types::variables::Rounding;
use crate::basic_types::variables::tighten_lower_bound_to;
use crate::basic_types::variables::tighten_upper_bound_to;
use crate::engine::assignments_view::EmptyDomain;
use crate::engine::assignments_integer::AssignmentsInteger;
use crate::engine::assignments_view::AssignmentsView;
use crate::engine::assignments_view::ReasonRef;
use crate::engine::cp_engine_data_structures::CPEngineDataStructures;
use crate::engine::domain_width::extends;
use crate::engine::domain_width::lemma_extends_reflexive;
use crate::engine::domain_width::lemma_extends_transitive;
use crate::engine::domain_width::lemma_same_or_narrower_chain;
use crate::engine::domain_width::lemma_tighten_lower_bound_any;
use crate::engine::domain_width::lemma_tighten_upper_bound_any;
use crate::engine::domain_width::same_or_narrower;
use crate::engine::propagation::store::PropagatorStore;
use crate::engine::propagator_queue::PropagatorId;
use crate::engine::reason_store::Reason;
use crate::engine::reason_store::ReasonStore;
use crate::basic_types::linear_terms::evaluate;
use crate::engine::solutions::lemma_divide_by_negative;
use crate::engine::solutions::lemma_divide_by_positive;
use crate::engine::solutions::lemma_sum_within_bounds;
use crate::engine::solutions::lemma_tighten_lower_bound_keeps;
use crate::engine::solutions::lemma_tighten_lower_bound_to_keeps;
use crate::engine::solutions::lemma_tighten_upper_bound_keeps;
use crate::engine::solutions::lemma_tighten_upper_bound_to_keeps;
use crate::engine::solutions::within;
use crate::basic_types::linear_terms::lemma_evaluate_scaled;
use crate::engine::search_space::within_at;
use crate::engine::solutions::lemma_sum_within_bounds_at;
use crate::basic_types::domain_events::DomainEvents;
use crate::engine::watch_list_cp::LocalId;
use crate::engine::watch_list_cp::PropagatorVarId;
use crate::engine::watch_list_cp::WatchListCP;

verus! {

/// Propagates `literal >= 1 <==> linear_inequality`.
#[derive(Debug)]
pub struct LinearInequalityLiteralPropagator {
    pub linear_inequality: LinearLessOrEqual,
    pub literal: DomainId,
}

/// The least and the greatest value of the left-hand side after the first
/// `n` trail entries.
pub fn bounds_of_lhs(inequality: &LinearLessOrEqual, assignments: &AssignmentsInteger, n: usize) -> (r: (
    i128,
    i128,
))
    requires
        assignments.wf(),
        inequality.valid_for(assignments@),
        n <= assignments@.trail.len(),
    ensures
        r.0 == lower_bound_sum(inequality.lhs@, assignments@, n as nat),
        r.1 == upper_bound_sum(inequality.lhs@, assignments@, n as nat),
        -0x4000_0000_0000_0000 * inequality.lhs@.len() <= r.0 <= 0x4000_0000_0000_0000
            * inequality.lhs@.len(),
        -0x4000_0000_0000_0000 * inequality.lhs@.len() <= r.1 <= 0x4000_0000_0000_0000
            * inequality.lhs@.len(),
{
    let terms = &inequality.lhs.0;
    let mut lower: i128 = 0;
    let mut upper: i128 = 0;
    let mut i: usize = 0;
    while i < terms.len()
        invariant
            assignments.wf(),
            inequality.valid_for(assignments@),
            terms@ == inequality.lhs@,
            n <= assignments@.trail.len(),
            i <= terms@.len(),
            lower == lower_bound_sum(terms@.take(i as int), assignments@, n as nat),
            upper == upper_bound_sum(terms@.take(i as int), assignments@, n as nat),
            -0x4000_0000_0000_0000 * i <= lower <= 0x4000_0000_0000_0000 * i,
            -0x4000_0000_0000_0000 * i <= upper <= 0x4000_0000_0000_0000 * i,
        decreases terms.len() - i,
    {
        let term = terms[i];
        assert(assignments@.is_valid_domain(terms@[i as int].0));
        let least = term_lower_bound_after(term.0, term.1, assignments, n);
        let greatest = term_upper_bound_after(term.0, term.1, assignments, n);
        proof {
            assert(terms@.take(i + 1).drop_last() =~= terms@.take(i as int));
            let s = assignments@;
            lemma_i32_product_bounds(term.1 as int, s.upper_bound_at(term.0, n as nat));
            lemma_i32_product_bounds(term.1 as int, s.lower_bound_at(term.0, n as nat));
        }
        lower = lower + least as i128;
        upper = upper + greatest as i128;
        i += 1;
    }
    proof {
        assert(terms@.take(terms@.len() as int) =~= terms@);
    }
    (lower, upper)
}

/// The registrations of propagator `id` on `y` for the first `k` of its
/// variables: one for each of them that is `y`, under its number.
pub open spec fn registrations(variables: Seq<DomainId>, id: PropagatorId, y: DomainId, k: nat) -> Seq<
    PropagatorVarId,
>
    decreases k,
{
    if k == 0 {
        Seq::empty()
    } else if variables[k - 1] == y {
        registrations(variables, id, y, (k - 1) as nat).push(
            PropagatorVarId { propagator: id, variable: LocalId((k - 1) as u32) },
        )
    } else {
        registrations(variables, id, y, (k - 1) as nat)
    }
}

/// The constant that switches the inequality off: the least number that is
/// not negative and is at least `ub - rhs` and `rhs + 1 - lb`, where `lb`
/// and `ub` are the least and the greatest value of the left-hand side in
/// the initial domains.
pub open spec fn big_m(inequality: &LinearLessOrEqual, s: AssignmentsView) -> int {
    let first = upper_bound_sum(inequality.lhs@, s, 0) - inequality.rhs;
    let second = inequality.rhs + 1 - lower_bound_sum(inequality.lhs@, s, 0);
    if first >= second && first >= 0 {
        first
    } else if second >= 0 {
        second
    } else {
        0
    }
}

/// The terms of `lhs`, each with its coefficient times `sign`, and behind
/// them the term of `literal` where its coefficient is not zero.
pub open spec fn with_literal(lhs: Seq<(DomainId, i32)>, sign: int, literal: DomainId, coefficient: int) -> Seq<
    (DomainId, i32),
> {
    let scaled = Seq::new(lhs.len(), |i: int| (lhs[i].0, (sign * lhs[i].1) as i32));
    if coefficient == 0 {
        scaled
    } else {
        scaled.push((literal, coefficient as i32))
    }
}

/// Whether a propagator that is told of a change wants to run.
#[derive(Clone, Copy, Debug, PartialEq, Eq)]
pub enum EnqueueDecision {
    Enqueue,
    Skip,
}

impl LinearInequalityLiteralPropagator {
    /// The name under which the propagator is known.
    pub fn name(&self) -> (r: &'static str)
        ensures
            r@ == "PredicateLiteralPropagator"@,
    {
        "PredicateLiteralPropagator"
    }

    /// What the propagator does when a change is undone: it asks to run,
    /// whatever was undone, and keeps no state of its own.
    pub fn notify_backtrack(&mut self, local_id: LocalId, event: OpaqueDomainEvent) -> (r: EnqueueDecision)
        ensures
            r == EnqueueDecision::Enqueue,
            *final(self) == *old(self),
    {
        EnqueueDecision::Enqueue
    }

    pub fn new(linear_inequality: LinearLessOrEqual, literal: DomainId) -> (r: Self)
        ensures
            r.linear_inequality == linear_inequality,
            r.literal == literal,
    {
        LinearInequalityLiteralPropagator { linear_inequality, literal }
    }

    pub fn priority(&self) -> (r: u32)
        ensures
            r == 0,
    {
        0
    }

    /// The variables of the constraint: those of the terms, in their
    /// order, and the literal last.
    pub open spec fn variables(&self) -> Seq<DomainId> {
        Seq::new(self.linear_inequality.lhs@.len(), |i: int| self.linear_inequality.lhs@[i].0).push(
            self.literal,
        )
    }

    /// The invariant: the inequality is well-formed and over variables of
    /// the store, and the literal is another variable of the store.
    pub open spec fn wf(&self, s: AssignmentsView) -> bool {
        &&& self.linear_inequality.wf()
        &&& self.linear_inequality.valid_for(s)
        &&& s.is_valid_domain(self.literal)
        &&& !mentions(self.linear_inequality.lhs@, self.literal)
    }

    /// Whether the constraint holds where every variable `x` has the value
    /// `assignment(x)`.
    pub open spec fn holds(&self, assignment: spec_fn(DomainId) -> int) -> bool {
        &&& assignment(self.literal) >= 1 ==> self.linear_inequality.holds(assignment)
        &&& assignment(self.literal) <= 0 ==> !self.linear_inequality.holds(assignment)
    }

    /// The inequality that stands for one direction of the constraint, with
    /// `M = big_m`. For a literal that is true, `lhs + M * literal <= rhs +
    /// M`: with the literal at 1 this is the inequality, with the literal at
    /// 0 it holds of all initial values. For a literal that is false, `-lhs
    /// - M * literal <= -rhs - 1`: with the literal at 0 this is the negated
    /// inequality, with the literal at 1 it holds of all initial values.
    /// `None` where a number of the result is no `i32`. The result is
    /// well-formed, and it holds wherever the constraint holds, the
    /// variables have initial values and the literal is 0 or 1.
    pub fn get_propagation_reason_constraint(&self, assignments: &AssignmentsInteger, literal_is_true: bool) -> (r:
        Option<LinearLessOrEqual>)
        requires
            assignments.wf(),
            self.wf(assignments@),
        ensures
            r matches Some(constraint) ==> constraint.wf() && constraint.valid_for(assignments@),
            r matches Some(constraint) ==> forall|assignment: spec_fn(DomainId) -> int|
                self.holds(assignment) && within_at(assignment, assignments@, 0) && 0 <= assignment(
                    self.literal,
                ) <= 1 ==> #[trigger] constraint.holds(assignment),
            r matches Some(constraint) ==> {
                let m = big_m(&self.linear_inequality, assignments@);
                if literal_is_true {
                    &&& constraint.lhs@ == with_literal(self.linear_inequality.lhs@, 1, self.literal, m)
                    &&& constraint.rhs == self.linear_inequality.rhs + m
                } else {
                    &&& constraint.lhs@ == with_literal(
                        self.linear_inequality.lhs@,
                        -1,
                        self.literal,
                        -m,
                    )
                    &&& constraint.rhs == -self.linear_inequality.rhs - 1
                }
            },
            r is Some <==> {
                let m = big_m(&self.linear_inequality, assignments@);
                if literal_is_true {
                    &&& self.linear_inequality.rhs + m <= i32::MAX
                    &&& m <= i32::MAX
                } else {
                    &&& m <= 0x8000_0000
                    &&& forall|i: int|
                        0 <= i < self.linear_inequality.lhs@.len() ==> (
                        #[trigger] self.linear_inequality.lhs@[i]).1 != i32::MIN
                }
            },
    {
        let count: usize = self.linear_inequality.lhs.len();
        let (lb_lhs, ub_lhs) = bounds_of_lhs(&self.linear_inequality, assignments, 0);
        let rhs = self.linear_inequality.rhs as i128;
        let big_m_opt_1: i128 = ub_lhs - rhs;
        let big_m_opt_2: i128 = rhs + 1 - lb_lhs;
        let big_m: i128 = if big_m_opt_1 >= big_m_opt_2 && big_m_opt_1 >= 0 {
            big_m_opt_1
        } else if big_m_opt_2 >= 0 {
            big_m_opt_2
        } else {
            0
        };
        let sign: i64 = if literal_is_true {
            1
        } else {
            -1
        };
        let new_rhs: i128 = if literal_is_true {
            rhs + big_m
        } else {
            -rhs - 1
        };
        let literal_coefficient: i128 = if literal_is_true {
            big_m
        } else {
            -big_m
        };
        if new_rhs < i32::MIN as i128 || new_rhs > i32::MAX as i128 || literal_coefficient
            < i32::MIN as i128 || literal_coefficient > i32::MAX as i128 {
            return None;
        }
        let terms = &self.linear_inequality.lhs.0;
        let mut lhs: Vec<(DomainId, i32)> = Vec::new();
        let mut i: usize = 0;
        while i < terms.len()
            invariant
                terms@ == self.linear_inequality.lhs@,
                sign == 1 || sign == -1,
                literal_is_true <==> sign == 1,
                i <= terms@.len(),
                lhs@.len() == i,
                forall|k: int| 0 <= k < i ==> (#[trigger] lhs@[k]) == (terms@[k].0, (sign * terms@[k].1) as i32),
                forall|k: int| 0 <= k < i ==> sign == -1 ==> (#[trigger] terms@[k]).1 != i32::MIN,
            decreases terms.len() - i,
        {
            let term = terms[i];
            let scaled: i64 = sign * term.1 as i64;
            if scaled > i32::MAX as i64 {
                assert(self.linear_inequality.lhs@[i as int].1 == i32::MIN);
                return None;
            }
            lhs.push((term.0, scaled as i32));
            i += 1;
        }
        proof {
            assert(lhs@ =~= Seq::new(
                terms@.len(),
                |i: int| (terms@[i].0, (sign * terms@[i].1) as i32),
            ));
        }
        let ghost scaled = lhs@;
        if literal_coefficient != 0 {
            lhs.push((self.literal, literal_coefficient as i32));
        }
        proof {
            let s = assignments@;
            assert forall|k: int| 0 <= k < lhs@.len() implies (#[trigger] lhs@[k]).1 != 0
                && s.is_valid_domain(lhs@[k].0) by {
                if k < terms@.len() {
                    assert(terms@[k].1 != 0);
                    assert(s.is_valid_domain(terms@[k].0));
                    assert(lhs@[k] == scaled[k]);
                }
            }
            assert forall|a: int, b: int| 0 <= a < b < lhs@.len() implies (#[trigger] lhs@[a]).0 != (
            #[trigger] lhs@[b]).0 by {
                assert(lhs@[a] == scaled[a]);
                if b < terms@.len() {
                    assert(lhs@[b] == scaled[b]);
                    assert(terms@[a].0 != terms@[b].0);
                } else {
                    assert(terms@[a].0 != self.literal);
                }
            }
            assert forall|assignment: spec_fn(DomainId) -> int|
                self.holds(assignment) && within_at(assignment, s, 0) && 0 <= assignment(self.literal)
                    <= 1 implies evaluate(lhs@, assignment) <= new_rhs by {
                lemma_evaluate_scaled(terms@, scaled, sign as int, assignment);
                assert forall|i: int| 0 <= i < terms@.len() implies s.lower_bound_at(
                    (#[trigger] terms@[i]).0,
                    0,
                ) <= assignment(terms@[i].0) <= s.upper_bound_at(terms@[i].0, 0) by {
                    assert(s.is_valid_domain(terms@[i].0));
                    assert(s.state_at(terms@[i].0, 0).contains(assignment(terms@[i].0)));
                }
                lemma_sum_within_bounds_at(terms@, s, 0, assignment);
                let value = evaluate(terms@, assignment);
                let switch = assignment(self.literal);
                if literal_coefficient != 0 {
                    assert(lhs@.drop_last() =~= scaled);
                    assert(evaluate(lhs@, assignment) == sign * value + literal_coefficient * switch);
                }
                assert(switch == 0 || switch == 1);
                assert(sign * value == if literal_is_true {
                    value
                } else {
                    -value
                }) by (nonlinear_arith)
                    requires
                        literal_is_true ==> sign == 1,
                        !literal_is_true ==> sign == -1,
                ;
                assert(literal_coefficient * switch == if switch == 1 {
                    literal_coefficient as int
                } else {
                    0
                }) by (nonlinear_arith)
                    requires
                        switch == 0 || switch == 1,
                ;
            }
        }
        Some(LinearLessOrEqual { lhs: LinearLessOrEqualLhs(lhs), rhs: new_rhs as i32 })
    }
}

/// Tightens, with notification, the lower bound of `x` to a value that may
/// lie outside `i32`.
fn tighten_lower_bound_wide(
    engine: &mut CPEngineDataStructures,
    x: DomainId,
    value: i64,
    reason: Option<ReasonRef>,
    cp_propagators: &PropagatorStore,
) -> (r: Result<(), EmptyDomain>)
    requires
        old(engine).wf(),
        old(engine).assignments_integer@.is_valid_domain(x),
    ensures
        final(engine).wf(),
        final(engine).watch_list_cp == old(engine).watch_list_cp,
        (final(engine).assignments_integer@, r is Ok) == tighten_lower_bound_to(
            old(engine).assignments_integer@,
            x,
            value as int,
            reason,
        ),
        extends(old(engine).assignments_integer@, final(engine).assignments_integer@),
        same_or_narrower(old(engine).assignments_integer@, final(engine).assignments_integer@),
        final(engine).assignments_integer@ == old(engine).assignments_integer@ ==> final(engine).propagator_queue@
            == old(engine).propagator_queue@,
        wakes(
            &old(engine).watch_list_cp,
            cp_propagators.priorities@,
            old(engine).assignments_integer@,
            old(engine).propagator_queue@,
            final(engine).assignments_integer@,
            final(engine).propagator_queue@,
        ),
{
    proof {
        engine.assignments_integer.lemma_view_wf();
        lemma_extends_reflexive(engine.assignments_integer@);
    }
    if value > i32::MAX as i64 {
        Err(EmptyDomain)
    } else if value < i32::MIN as i64 {
        Ok(())
    } else {
        proof {
            lemma_tighten_lower_bound_any(engine.assignments_integer@, x, value as i32, reason);
        }
        engine.tighten_lower_bound(x, value as i32, reason, cp_propagators)
    }
}

/// Tightens, with notification, the upper bound of `x` to a value that may
/// lie outside `i32`.
fn tighten_upper_bound_wide(
    engine: &mut CPEngineDataStructures,
    x: DomainId,
    value: i64,
    reason: Option<ReasonRef>,
    cp_propagators: &PropagatorStore,
) -> (r: Result<(), EmptyDomain>)
    requires
        old(engine).wf(),
        old(engine).assignments_integer@.is_valid_domain(x),
    ensures
        final(engine).wf(),
        final(engine).watch_list_cp == old(engine).watch_list_cp,
        (final(engine).assignments_integer@, r is Ok) == tighten_upper_bound_to(
            old(engine).assignments_integer@,
            x,
            value as int,
            reason,
        ),
        extends(old(engine).assignments_integer@, final(engine).assignments_integer@),
        same_or_narrower(old(engine).assignments_integer@, final(engine).assignments_integer@),
        final(engine).assignments_integer@ == old(engine).assignments_integer@ ==> final(engine).propagator_queue@
            == old(engine).propagator_queue@,
        wakes(
            &old(engine).watch_list_cp,
            cp_propagators.priorities@,
            old(engine).assignments_integer@,
            old(engine).propagator_queue@,
            final(engine).assignments_integer@,
            final(engine).propagator_queue@,
        ),
{
    proof {
        engine.assignments_integer.lemma_view_wf();
        lemma_extends_reflexive(engine.assignments_integer@);
    }
    if value < i32::MIN as i64 {
        Err(EmptyDomain)
    } else if value > i32::MAX as i64 {
        Ok(())
    } else {
        proof {
            lemma_tighten_upper_bound_any(engine.assignments_integer@, x, value as i32, reason);
        }
        engine.tighten_upper_bound(x, value as i32, reason, cp_propagators)
    }
}

impl LinearInequalityLiteralPropagator {
    /// Registers the propagator, known to the engine as `id`, for every
    /// event on every variable of the inequality, and on the literal: the
    /// variable of term `i` as variable number `i` of the propagator, the
    /// literal under the number after the last term. Nothing else is
    /// registered.
    pub fn initialise_at_root(&self, id: PropagatorId, watchers: &mut WatchListCP)
        requires
            forall|i: int|
                0 <= i < self.linear_inequality.lhs@.len() ==> ((
                #[trigger] self.linear_inequality.lhs@[i]).0.id as int) < old(watchers).num_domains(),
            (self.literal.id as int) < old(watchers).num_domains(),
            self.linear_inequality.lhs@.len() < u32::MAX,
        ensures
            final(watchers).num_domains() == old(watchers).num_domains(),
            forall|y: DomainId, event: IntDomainEvent|
                (y.id as int) < old(watchers).num_domains() ==> #[trigger] final(watchers).watchers_of(
                    y,
                    event,
                ) == old(watchers).watchers_of(y, event) + registrations(
                    self.variables(),
                    id,
                    y,
                    self.variables().len(),
                ),
    {
        let variables = &self.linear_inequality.lhs.0;
        let ghost all = self.variables();
        let mut i: usize = 0;
        while i < variables.len()
            invariant
                variables@ == self.linear_inequality.lhs@,
                all == self.variables(),
                i <= variables@.len(),
                variables@.len() < u32::MAX,
                watchers.num_domains() == old(watchers).num_domains(),
                forall|k: int|
                    0 <= k < variables@.len() ==> ((#[trigger] variables@[k]).0.id as int)
                        < watchers.num_domains(),
                forall|y: DomainId, event: IntDomainEvent|
                    (y.id as int) < old(watchers).num_domains() ==> #[trigger] watchers.watchers_of(
                        y,
                        event,
                    ) == old(watchers).watchers_of(y, event) + registrations(all, id, y, i as nat),
            decreases variables.len() - i,
        {
            let variable = variables[i].0;
            assert((variables@[i as int].0.id as int) < watchers.num_domains());
            let events = DomainEvents::any_int();
            let ghost before = *watchers;
            variable.watch_all(watchers, PropagatorVarId { propagator: id, variable: LocalId(i as u32) }, events);
            proof {
                assert(all[i as int] == variable);
                assert forall|y: DomainId, event: IntDomainEvent|
                    (y.id as int) < old(watchers).num_domains() implies #[trigger] watchers.watchers_of(
                    y,
                    event,
                ) == old(watchers).watchers_of(y, event) + registrations(all, id, y, (i + 1) as nat) by {
                    assert(events.has(event));
                    let earlier = registrations(all, id, y, i as nat);
                    assert(before.watchers_of(y, event) == old(watchers).watchers_of(y, event) + earlier);
                    if y == variable {
                        assert((old(watchers).watchers_of(y, event) + earlier).push(
                            PropagatorVarId { propagator: id, variable: LocalId(i as u32) },
                        ) =~= old(watchers).watchers_of(y, event) + earlier.push(
                            PropagatorVarId { propagator: id, variable: LocalId(i as u32) },
                        ));
                    }
                }
            }
            i += 1;
        }
        let events = DomainEvents::any_int();
        let ghost before = *watchers;
        let last: usize = variables.len();
        self.literal.watch_all(watchers, PropagatorVarId { propagator: id, variable: LocalId(last as u32) }, events);
        proof {
            assert(all[last as int] == self.literal);
            assert forall|y: DomainId, event: IntDomainEvent|
                (y.id as int) < old(watchers).num_domains() implies #[trigger] watchers.watchers_of(
                y,
                event,
            ) == old(watchers).watchers_of(y, event) + registrations(all, id, y, all.len()) by {
                assert(events.has(event));
                let earlier = registrations(all, id, y, last as nat);
                assert(before.watchers_of(y, event) == old(watchers).watchers_of(y, event) + earlier);
                if y == self.literal {
                    assert((old(watchers).watchers_of(y, event) + earlier).push(
                        PropagatorVarId { propagator: id, variable: LocalId(last as u32) },
                    ) =~= old(watchers).watchers_of(y, event) + earlier.push(
                        PropagatorVarId { propagator: id, variable: LocalId(last as u32) },
                    ));
                }
            }
        }
    }

    /// The first step of propagation: where the inequality holds whatever
    /// values are left, the literal becomes at least 1; where it fails
    /// whatever values are left, the literal becomes at most 0.
    pub open spec fn spec_first_step(&self, s: AssignmentsView, reason: Option<ReasonRef>) -> (
        AssignmentsView,
        bool,
    ) {
        if upper_bound_sum(self.linear_inequality.lhs@, s, s.trail.len()) <= self.linear_inequality.rhs {
            s.tighten_lower_bound(self.literal, 1, reason)
        } else if lower_bound_sum(self.linear_inequality.lhs@, s, s.trail.len())
            > self.linear_inequality.rhs {
            s.tighten_upper_bound(self.literal, 0, reason)
        } else {
            (s, true)
        }
    }

    /// The second step of propagation, for an inequality of one term
    /// `a * x` and a literal that is fixed: with the literal at 1 or more,
    /// `x` gets the bound that `a * x <= rhs` gives it, and otherwise the
    /// bound that `a * x >= rhs + 1` gives it.
    pub open spec fn spec_second_step(&self, s: AssignmentsView, reason: Option<ReasonRef>) -> (
        AssignmentsView,
        bool,
    ) {
        if self.linear_inequality.lhs@.len() == 1 && s.lower_bound(self.literal) == s.upper_bound(
            self.literal,
        ) {
            let x = self.linear_inequality.lhs@[0].0;
            let a = self.linear_inequality.lhs@[0].1 as int;
            let rhs = self.linear_inequality.rhs as int;
            if s.lower_bound(self.literal) >= 1 {
                if a > 0 {
                    tighten_upper_bound_to(s, x, div_floor(rhs, a), reason)
                } else {
                    tighten_lower_bound_to(s, x, div_ceil(rhs, a), reason)
                }
            } else {
                if a > 0 {
                    tighten_lower_bound_to(s, x, div_ceil(rhs + 1, a), reason)
                } else {
                    tighten_upper_bound_to(s, x, div_floor(rhs + 1, a), reason)
                }
            }
        } else {
            (s, true)
        }
    }

    /// The first step removes no value that an assignment takes of which
    /// the constraint holds, and fails only where there is no such
    /// assignment within the domains.
    pub proof fn lemma_first_step_keeps(
        &self,
        s: AssignmentsView,
        reason: Option<ReasonRef>,
        assignment: spec_fn(DomainId) -> int,
    )
        requires
            s.wf(),
            self.wf(s),
            self.holds(assignment),
            within(assignment, s),
        ensures
            self.spec_first_step(s, reason).1,
            within(assignment, self.spec_first_step(s, reason).0),
    {
        lemma_sum_within_bounds(self.linear_inequality.lhs@, s, assignment);
        if upper_bound_sum(self.linear_inequality.lhs@, s, s.trail.len())
            <= self.linear_inequality.rhs {
            lemma_tighten_lower_bound_keeps(s, self.literal, 1, reason, assignment);
        } else if lower_bound_sum(self.linear_inequality.lhs@, s, s.trail.len())
            > self.linear_inequality.rhs {
            lemma_tighten_upper_bound_keeps(s, self.literal, 0, reason, assignment);
        }
    }

    /// The second step removes no value that an assignment takes of which
    /// the constraint holds, and fails only where there is no such
    /// assignment within the domains.
    pub proof fn lemma_second_step_keeps(
        &self,
        s: AssignmentsView,
        reason: Option<ReasonRef>,
        assignment: spec_fn(DomainId) -> int,
    )
        requires
            s.wf(),
            self.wf(s),
            self.holds(assignment),
            within(assignment, s),
        ensures
            self.spec_second_step(s, reason).1,
            within(assignment, self.spec_second_step(s, reason).0),
    {
        let terms = self.linear_inequality.lhs@;
        if terms.len() == 1 && s.lower_bound(self.literal) == s.upper_bound(self.literal) {
            let x = terms[0].0;
            let a = terms[0].1 as int;
            let rhs = self.linear_inequality.rhs as int;
            let value = assignment(x);
            assert(s.is_valid_domain(terms[0].0));
            assert(terms[0].1 != 0);
            assert(s.contains(self.literal, assignment(self.literal)));
            assert(terms.drop_last().len() == 0);
            assert(evaluate(terms.drop_last(), assignment) == 0);
            assert(terms.last() == terms[0]);
            assert(evaluate(terms, assignment) == a * value);
            if s.lower_bound(self.literal) >= 1 {
                assert(a * value <= rhs);
                if a > 0 {
                    lemma_divide_by_positive(a, value, rhs);
                    lemma_tighten_upper_bound_to_keeps(s, x, div_floor(rhs, a), reason, assignment);
                } else {
                    lemma_divide_by_negative(a, value, rhs);
                    lemma_tighten_lower_bound_to_keeps(s, x, div_ceil(rhs, a), reason, assignment);
                }
            } else {
                assert(a * value >= rhs + 1);
                if a > 0 {
                    lemma_divide_by_positive(a, value, rhs + 1);
                    lemma_tighten_lower_bound_to_keeps(s, x, div_ceil(rhs + 1, a), reason, assignment);
                } else {
                    lemma_divide_by_negative(a, value, rhs + 1);
                    lemma_tighten_upper_bound_to_keeps(s, x, div_floor(rhs + 1, a), reason, assignment);
                }
            }
        }
    }

    /// Propagation removes no value that an assignment takes of which the
    /// constraint holds, and fails only where there is no such assignment
    /// within the domains.
    pub proof fn lemma_propagate_keeps(
        &self,
        s: AssignmentsView,
        reason: Option<ReasonRef>,
        assignment: spec_fn(DomainId) -> int,
    )
        requires
            s.wf(),
            self.wf(s),
            self.holds(assignment),
            within(assignment, s),
        ensures
            self.spec_propagate(s, reason).1,
            within(assignment, self.spec_propagate(s, reason).0),
    {
        self.lemma_first_step_keeps(s, reason, assignment);
        let middle = self.spec_first_step(s, reason).0;
        lemma_tighten_lower_bound_any(s, self.literal, 1, reason);
        lemma_tighten_upper_bound_any(s, self.literal, 0, reason);
        assert(middle.wf());
        assert(extends(s, middle)) by {
            lemma_extends_reflexive(s);
        }
        assert(self.wf(middle));
        self.lemma_second_step_keeps(middle, reason, assignment);
    }

    /// Propagation as a function: the first step, and if that succeeds, the
    /// second. A step that fails changes nothing.
    pub open spec fn spec_propagate(&self, s: AssignmentsView, reason: Option<ReasonRef>) -> (
        AssignmentsView,
        bool,
    ) {
        let first = self.spec_first_step(s, reason);
        if first.1 {
            self.spec_second_step(first.0, reason)
        } else {
            first
        }
    }

    /// Propagates from scratch: lets the literal follow the inequality where
    /// the domains decide it, and lets the variable of a one-term inequality
    /// follow the literal where that is fixed. Fails where a bound it must
    /// set would empty a domain.
    pub fn propagate(
        &self,
        id: PropagatorId,
        engine: &mut CPEngineDataStructures,
        cp_propagators: &PropagatorStore,
        reason_store: &mut ReasonStore,
    ) -> (r: Result<(), StoredConflictInfo>)
        requires
            old(engine).wf(),
            self.wf(old(engine).assignments_integer@),
        ensures
            final(engine).wf(),
            final(engine).watch_list_cp == old(engine).watch_list_cp,
            extends(old(engine).assignments_integer@, final(engine).assignments_integer@),
            same_or_narrower(old(engine).assignments_integer@, final(engine).assignments_integer@),
            final(engine).assignments_integer@ == old(engine).assignments_integer@ ==> final(engine).propagator_queue@
                == old(engine).propagator_queue@,
            (final(engine).assignments_integer@, r is Ok) == self.spec_propagate(
                old(engine).assignments_integer@,
                Some(ReasonRef(old(reason_store).reasons().len() as usize)),
            ),
            r is Err ==> r == Err::<(), StoredConflictInfo>(
                StoredConflictInfo::Propagator { propagator_id: id },
            ),
            wakes(
                &old(engine).watch_list_cp,
                cp_propagators.priorities@,
                old(engine).assignments_integer@,
                old(engine).propagator_queue@,
                final(engine).assignments_integer@,
                final(engine).propagator_queue@,
            ),
            forall|assignment: spec_fn(DomainId) -> int|
                self.holds(assignment) && within(assignment, old(engine).assignments_integer@)
                    ==> #[trigger] within(assignment, final(engine).assignments_integer@),
            r is Err ==> forall|assignment: spec_fn(DomainId) -> int|
                !(self.holds(assignment) && #[trigger] within(
                    assignment,
                    old(engine).assignments_integer@,
                )),
            r is Ok ==> self.at_rest(final(engine).assignments_integer@),
    {
        let ghost start = engine.assignments_integer@;
        proof {
            engine.assignments_integer.lemma_view_wf();
            if self.spec_propagate(start, Some(ReasonRef(reason_store.reasons().len() as usize))).1 {
                self.lemma_propagation_comes_to_rest(
                    start,
                    Some(ReasonRef(reason_store.reasons().len() as usize)),
                );
            }
            assert forall|assignment: spec_fn(DomainId) -> int|
                self.holds(assignment) && #[trigger] within(assignment, start) implies self.spec_propagate(
                start,
                Some(ReasonRef(reason_store.reasons().len() as usize)),
            ).1 && within(
                assignment,
                self.spec_first_step(start, Some(ReasonRef(reason_store.reasons().len() as usize))).0,
            ) && within(
                assignment,
                self.spec_propagate(start, Some(ReasonRef(reason_store.reasons().len() as usize))).0,
            ) by {
                self.lemma_propagate_keeps(
                    start,
                    Some(ReasonRef(reason_store.reasons().len() as usize)),
                    assignment,
                );
                self.lemma_first_step_keeps(
                    start,
                    Some(ReasonRef(reason_store.reasons().len() as usize)),
                    assignment,
                );
            }
        }
        let ghost queue_start = engine.propagator_queue@;
        let count: usize = self.linear_inequality.lhs.len();
        let n = engine.assignments_integer.num_trail_entries();
        let (lb_lhs, ub_lhs) = bounds_of_lhs(&self.linear_inequality, &engine.assignments_integer, n);
        let reason = Some(reason_store.push(Reason::Propagator(id)));
        let rhs = self.linear_inequality.rhs as i128;
        proof {
            engine.assignments_integer.lemma_view_wf();
            lemma_extends_reflexive(start);
            lemma_tighten_lower_bound_any(start, self.literal, 1, reason);
            lemma_tighten_upper_bound_any(start, self.literal, 0, reason);
        }
        let first = if ub_lhs <= rhs {
            engine.tighten_lower_bound(self.literal, 1, reason, cp_propagators)
        } else if lb_lhs > rhs {
            engine.tighten_upper_bound(self.literal, 0, reason, cp_propagators)
        } else {
            Ok(())
        };
        if first.is_err() {
            return Err(StoredConflictInfo::Propagator { propagator_id: id });
        }
        let ghost middle = engine.assignments_integer@;
        let ghost queue_middle = engine.propagator_queue@;
        if self.linear_inequality.lhs.len() == 1 && engine.assignments_integer.is_domain_assigned(
            self.literal,
        ) {
            let term = self.linear_inequality.lhs.0[0];
            assert(start.is_valid_domain(self.linear_inequality.lhs@[0].0));
            assert(self.linear_inequality.lhs@[0].1 != 0);
            let value = engine.assignments_integer.get_lower_bound(self.literal);
            let second = if value >= 1 {
                let view = AffineView::new(term.0, term.1, 0);
                if term.1 > 0 {
                    let bound = view.invert(self.linear_inequality.rhs, Rounding::Down);
                    tighten_upper_bound_wide(engine, term.0, bound, reason, cp_propagators)
                } else {
                    let bound = view.invert(self.linear_inequality.rhs, Rounding::Up);
                    tighten_lower_bound_wide(engine, term.0, bound, reason, cp_propagators)
                }
            } else {
                let view = AffineView::new(term.0, term.1, -1);
                if term.1 > 0 {
                    let bound = view.invert(self.linear_inequality.rhs, Rounding::Up);
                    tighten_lower_bound_wide(engine, term.0, bound, reason, cp_propagators)
                } else {
                    let bound = view.invert(self.linear_inequality.rhs, Rounding::Down);
                    tighten_upper_bound_wide(engine, term.0, bound, reason, cp_propagators)
                }
            };
            proof {
                lemma_extends_transitive(start, middle, engine.assignments_integer@);
                lemma_same_or_narrower_chain(start, middle, engine.assignments_integer@);
                assert(extends(start, middle));
                assert(wakes(
                    &engine.watch_list_cp,
                    cp_propagators.priorities@,
                    start,
                    queue_start,
                    middle,
                    queue_middle,
                ));
                assert(wakes(
                    &engine.watch_list_cp,
                    cp_propagators.priorities@,
                    middle,
                    queue_middle,
                    engine.assignments_integer@,
                    engine.propagator_queue@,
                ));
                lemma_wakes_chain(
                    &engine.watch_list_cp,
                    cp_propagators.priorities@,
                    start,
                    queue_start,
                    middle,
                    queue_middle,
                    engine.assignments_integer@,
                    engine.propagator_queue@,
                );
            }
            if second.is_err() {
                return Err(StoredConflictInfo::Propagator { propagator_id: id });
            }
        }
        Ok(())
    }
}

} // verus!
