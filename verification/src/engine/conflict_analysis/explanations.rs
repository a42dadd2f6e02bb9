//! Explanations by bounds: which bounds, together with a linear inequality,
//! leave a variable no choice, and how to see that they do.

use vstd::prelude::*;
use crate::basic_types::domain_id::DomainId;
use crate::basic_types::linear_less_or_equal::LinearLessOrEqual;
use crate::basic_types::linear_less_or_equal::term_lower_bound_after;
use crate::basic_types::linear_terms::coefficient;
use crate::basic_types::linear_terms::evaluate;
use crate::basic_types::linear_terms::lemma_coefficient_of_term;
use crate::basic_types::linear_terms::lower_bounds_fit;
use crate::basic_types::linear_terms::mentions;
use crate::basic_types::linear_terms::upper_bound_sum;
use crate::basic_types::linear_terms::lower_bound_sum;
use crate::basic_types::linear_terms::term_lower_bound;
use crate::basic_types::predicate::Predicate;
use crate::engine::assignments_integer::AssignmentsInteger;
use crate::engine::assignments_view::AssignmentsView;
use crate::engine::propagation::propagator::Propagator;
use crate::engine::search_space::agrees;
use crate::engine::solutions::lemma_sum_within_bounds_at;
use crate::propagators::linear_inequality_literal_propagator::LinearInequalityLiteralPropagator;
use crate::propagators::linear_inequality_literal_propagator::bounds_of_lhs;
use crate::engine::search_space::satisfies;

verus! {

/// The bound of its variable on which the least value of `term` rested
/// after the first `n` trail entries.
pub open spec fn bound_of(term: (DomainId, i32), s: AssignmentsView, n: nat) -> Predicate {
    if term.1 < 0 {
        Predicate::UpperBound { domain_id: term.0, upper_bound: s.state_at(term.0, n).upper_bound }
    } else {
        Predicate::LowerBound { domain_id: term.0, lower_bound: s.state_at(term.0, n).lower_bound }
    }
}

/// Every term but that of `skip` has its bound among the predicates.
pub open spec fn covers_bounds(
    predicates: Seq<Predicate>,
    terms: Seq<(DomainId, i32)>,
    s: AssignmentsView,
    n: nat,
    skip: Option<DomainId>,
) -> bool {
    forall|i: int|
        0 <= i < terms.len() && Some((#[trigger] terms[i]).0) != skip ==> predicates.contains(
            bound_of(terms[i], s, n),
        )
}

/// Under `assignment`, every term but that of `skip` is at least its least
/// value after the first `n` trail entries.
pub open spec fn meets_bounds(
    assignment: spec_fn(DomainId) -> int,
    terms: Seq<(DomainId, i32)>,
    s: AssignmentsView,
    n: nat,
    skip: Option<DomainId>,
) -> bool {
    forall|i: int|
        0 <= i < terms.len() && Some((#[trigger] terms[i]).0) != skip ==> satisfies(
            assignment,
            bound_of(terms[i], s, n),
        )
}

/// `predicate` is true wherever the inequality holds and the other
/// variables keep the bounds that they had after the first `n` trail
/// entries.
pub open spec fn is_consequence(
    inequality: &LinearLessOrEqual,
    s: AssignmentsView,
    n: nat,
    predicate: Predicate,
) -> bool {
    forall|assignment: spec_fn(DomainId) -> int|
        inequality.holds(assignment) && #[trigger] meets_bounds(
            assignment,
            inequality.lhs@,
            s,
            n,
            predicate.domain(),
        ) ==> satisfies(assignment, predicate)
}

/// A predicate that is among those with which an assignment agrees is true
/// under it.
pub proof fn lemma_agrees_with_each(
    assignment: spec_fn(DomainId) -> int,
    predicates: Seq<Predicate>,
    predicate: Predicate,
)
    requires
        agrees(assignment, predicates),
        predicates.contains(predicate),
    ensures
        satisfies(assignment, predicate),
{
    let i = choose|i: int| 0 <= i < predicates.len() && predicates[i] == predicate;
    assert(satisfies(assignment, predicates[i]));
}

/// What is among some predicates is among them and one more.
pub proof fn lemma_push_keeps(predicates: Seq<Predicate>, added: Predicate, predicate: Predicate)
    requires
        predicates.contains(predicate) || predicate == added,
    ensures
        predicates.push(added).contains(predicate),
{
    if predicates.contains(predicate) {
        let i = choose|i: int| 0 <= i < predicates.len() && predicates[i] == predicate;
        assert(predicates.push(added)[i] == predicate);
    } else {
        assert(predicates.push(added)[predicates.len() as int] == predicate);
    }
}

/// An assignment that agrees with predicates that cover the bounds meets
/// the bounds.
pub proof fn lemma_cover_is_met(
    assignment: spec_fn(DomainId) -> int,
    predicates: Seq<Predicate>,
    terms: Seq<(DomainId, i32)>,
    s: AssignmentsView,
    n: nat,
    skip: Option<DomainId>,
)
    requires
        agrees(assignment, predicates),
        covers_bounds(predicates, terms, s, n, skip),
    ensures
        meets_bounds(assignment, terms, s, n, skip),
{
    assert forall|i: int| 0 <= i < terms.len() && Some((#[trigger] terms[i]).0) != skip implies satisfies(
        assignment,
        bound_of(terms[i], s, n),
    ) by {
        lemma_agrees_with_each(assignment, predicates, bound_of(terms[i], s, n));
    }
}

/// A term whose variable keeps its bound is at least its least value.
pub proof fn lemma_term_at_least(
    assignment: spec_fn(DomainId) -> int,
    term: (DomainId, i32),
    s: AssignmentsView,
    n: nat,
)
    requires
        satisfies(assignment, bound_of(term, s, n)),
    ensures
        term.1 * assignment(term.0) >= term_lower_bound(term, s, n),
{
    let a = term.1 as int;
    let value = assignment(term.0);
    if term.1 < 0 {
        let bound = s.upper_bound_at(term.0, n);
        assert(value <= bound);
        assert(a * value >= a * bound) by (nonlinear_arith)
            requires
                a < 0,
                value <= bound,
        ;
    } else {
        let bound = s.lower_bound_at(term.0, n);
        assert(value >= bound);
        assert(a * value >= a * bound) by (nonlinear_arith)
            requires
                a >= 0,
                value >= bound,
        ;
    }
}

/// Where every term but the one at `p` is at least its least value, the
/// sum exceeds the sum of the least values by as much as that term exceeds
/// its own.
pub proof fn lemma_sum_exceeds_by_term(
    assignment: spec_fn(DomainId) -> int,
    terms: Seq<(DomainId, i32)>,
    s: AssignmentsView,
    n: nat,
    p: int,
)
    requires
        forall|i: int|
            0 <= i < terms.len() && i != p ==> satisfies(assignment, bound_of(#[trigger] terms[i], s, n)),
    ensures
        0 <= p < terms.len() ==> evaluate(terms, assignment) - lower_bound_sum(terms, s, n) >= terms[p].1
            * assignment(terms[p].0) - term_lower_bound(terms[p], s, n),
        !(0 <= p < terms.len()) ==> evaluate(terms, assignment) >= lower_bound_sum(terms, s, n),
    decreases terms.len(),
{
    if terms.len() > 0 {
        let rest = terms.drop_last();
        let last = terms.len() - 1;
        assert forall|i: int| 0 <= i < rest.len() && i != p implies satisfies(
            assignment,
            bound_of(#[trigger] rest[i], s, n),
        ) by {
            assert(rest[i] == terms[i]);
        }
        lemma_sum_exceeds_by_term(assignment, rest, s, n, p);
        if p != last {
            assert(satisfies(assignment, bound_of(terms[last], s, n)));
            lemma_term_at_least(assignment, terms[last], s, n);
            if 0 <= p < last {
                assert(rest[p] == terms[p]);
            }
        }
    }
}

/// The bounds on which the least value of the sum of `terms` rested after
/// the first `n` trail entries, term by term, but for the term of `skip`.
pub open spec fn bounds_explanation(
    terms: Seq<(DomainId, i32)>,
    s: AssignmentsView,
    n: nat,
    skip: Option<DomainId>,
) -> Seq<Predicate>
    decreases terms.len(),
{
    if terms.len() == 0 {
        Seq::empty()
    } else if Some(terms.last().0) == skip {
        bounds_explanation(terms.drop_last(), s, n, skip)
    } else {
        bounds_explanation(terms.drop_last(), s, n, skip).push(bound_of(terms.last(), s, n))
    }
}

/// The lower and the upper bound that each of `variables` had after the
/// first `n` trail entries, variable by variable, but for `skip`.
pub open spec fn box_explanation(
    variables: Seq<DomainId>,
    s: AssignmentsView,
    n: nat,
    skip: Option<DomainId>,
) -> Seq<Predicate>
    decreases variables.len(),
{
    if variables.len() == 0 {
        Seq::empty()
    } else if Some(variables.last()) == skip {
        box_explanation(variables.drop_last(), s, n, skip)
    } else {
        box_explanation(variables.drop_last(), s, n, skip).push(
            bound_of((variables.last(), 1i32), s, n),
        ).push(bound_of((variables.last(), -1i32), s, n))
    }
}

/// The bounds by which `propagator` explains what it inferred of `skip`
/// after the first `n` trail entries, or a conflict where `skip` is
/// `None`: for a linear inequality the bounds on which the least value of
/// its left-hand side rested, for an inequality tied to a literal both
/// bounds of every variable, the literal last.
pub open spec fn explanation(propagator: &Propagator, s: AssignmentsView, n: nat, skip: Option<DomainId>) -> Seq<
    Predicate,
> {
    match propagator {
        Propagator::LinearLessOrEqual(linear) => bounds_explanation(linear.inequality.lhs@, s, n, skip),
        Propagator::LinearInequalityLiteral(tied) => box_explanation(tied.variables(), s, n, skip),
    }
}

/// With the opposite of `predicate` in the place of the bound of its
/// variable, and the bounds that the other variables had after the first
/// `n` trail entries, the least value of the left-hand side exceeds the
/// right-hand side; the least values of the terms being `i32`s.
pub open spec fn inequality_leaves_no_choice(
    inequality: &LinearLessOrEqual,
    s: AssignmentsView,
    n: nat,
    predicate: Predicate,
) -> bool {
    let terms = inequality.lhs@;
    match predicate {
        Predicate::UpperBound { domain_id, upper_bound } => {
            let scale = coefficient(terms, domain_id);
            &&& mentions(terms, domain_id)
            &&& lower_bounds_fit(terms, s, n)
            &&& scale > 0
            &&& lower_bound_sum(terms, s, n) - scale * s.lower_bound_at(domain_id, n) + scale * (
            upper_bound + 1) > inequality.rhs
        },
        Predicate::LowerBound { domain_id, lower_bound } => {
            let scale = coefficient(terms, domain_id);
            &&& mentions(terms, domain_id)
            &&& lower_bounds_fit(terms, s, n)
            &&& scale < 0
            &&& lower_bound_sum(terms, s, n) - scale * s.upper_bound_at(domain_id, n) + scale * (
            lower_bound - 1) > inequality.rhs
        },
        _ => false,
    }
}

/// The least value that the left-hand side had after the first `n` trail
/// entries exceeds the right-hand side; the least values of the terms
/// being `i32`s.
pub open spec fn inequality_seen_violated(inequality: &LinearLessOrEqual, s: AssignmentsView, n: nat) -> bool {
    lower_bounds_fit(inequality.lhs@, s, n) && lower_bound_sum(inequality.lhs@, s, n) > inequality.rhs
}

/// What `a * x <= rhs`, or its opposite, says of a bound on `x` with the
/// constant `bound`: `exceeds` is whether the opposite of the bound makes
/// `a * x` exceed `rhs`.
pub open spec fn tied_term_leaves_no_choice(
    propagator: &LinearInequalityLiteralPropagator,
    s: AssignmentsView,
    n: nat,
    is_upper: bool,
    bound: int,
) -> bool {
    let scale = propagator.linear_inequality.lhs@[0].1 as int;
    let rhs = propagator.linear_inequality.rhs as int;
    let beyond = if is_upper {
        bound + 1
    } else {
        bound - 1
    };
    if s.lower_bound_at(propagator.literal, n) >= 1 {
        (is_upper <==> scale > 0) && scale != 0 && scale * beyond > rhs
    } else if s.upper_bound_at(propagator.literal, n) <= 0 {
        (is_upper <==> scale < 0) && scale != 0 && scale * beyond <= rhs
    } else {
        false
    }
}

/// The constraint, with the bounds that its other variables had after the
/// first `n` trail entries, is seen to make `predicate` true. Of the
/// literal: a lower bound of 1 at most where the inequality held whatever
/// values were left, an upper bound of 0 at least where it failed whatever
/// values were left. Of the variable of an inequality of one term, with
/// the literal fixed: a bound whose opposite goes against the inequality,
/// or against its negation.
pub open spec fn tied_inequality_leaves_no_choice(
    propagator: &LinearInequalityLiteralPropagator,
    s: AssignmentsView,
    n: nat,
    predicate: Predicate,
) -> bool {
    let terms = propagator.linear_inequality.lhs@;
    let rhs = propagator.linear_inequality.rhs as int;
    match predicate {
        Predicate::UpperBound { domain_id, upper_bound } => if domain_id == propagator.literal {
            upper_bound >= 0 && lower_bound_sum(terms, s, n) > rhs
        } else {
            terms.len() == 1 && terms[0].0 == domain_id && tied_term_leaves_no_choice(
                propagator,
                s,
                n,
                true,
                upper_bound as int,
            )
        },
        Predicate::LowerBound { domain_id, lower_bound } => if domain_id == propagator.literal {
            lower_bound <= 1 && upper_bound_sum(terms, s, n) <= rhs
        } else {
            terms.len() == 1 && terms[0].0 == domain_id && tied_term_leaves_no_choice(
                propagator,
                s,
                n,
                false,
                lower_bound as int,
            )
        },
        _ => false,
    }
}

/// The constraint of `propagator`, with the bounds that its other
/// variables had after the first `n` trail entries, is seen to make
/// `predicate` true.
pub open spec fn leaves_no_choice(propagator: &Propagator, s: AssignmentsView, n: nat, predicate: Predicate) -> bool {
    match propagator {
        Propagator::LinearLessOrEqual(linear) => inequality_leaves_no_choice(
            &linear.inequality,
            s,
            n,
            predicate,
        ),
        Propagator::LinearInequalityLiteral(tied) => tied_inequality_leaves_no_choice(
            tied,
            s,
            n,
            predicate,
        ),
    }
}

/// The constraint of `propagator` is seen to fail whatever values were
/// left after the first `n` trail entries: a linear inequality whose
/// least value exceeds its right-hand side; an inequality tied to a
/// literal that holds whatever is left with the literal at 0 at most, or
/// fails whatever is left with the literal at 1 at least.
pub open spec fn seen_violated(propagator: &Propagator, s: AssignmentsView, n: nat) -> bool {
    match propagator {
        Propagator::LinearLessOrEqual(linear) => inequality_seen_violated(&linear.inequality, s, n),
        Propagator::LinearInequalityLiteral(tied) => {
            let terms = tied.linear_inequality.lhs@;
            let rhs = tied.linear_inequality.rhs as int;
            ||| upper_bound_sum(terms, s, n) <= rhs && s.upper_bound_at(tied.literal, n) <= 0
            ||| lower_bound_sum(terms, s, n) > rhs && s.lower_bound_at(tied.literal, n) >= 1
        },
    }
}

/// The bound of `variable` on which the least value of a term with the
/// coefficient `scale` rested after the first `n` trail entries.
pub fn bound_predicate(store: &AssignmentsInteger, variable: DomainId, scale: i32, n: usize) -> (r:
    Predicate)
    requires
        store.wf(),
        store@.is_valid_domain(variable),
        n <= store@.trail.len(),
    ensures
        r == bound_of((variable, scale), store@, n as nat),
        r.domain() == Some(variable),
        store@.predicate_holds_at(r, n as nat),
        r is LowerBound || r is UpperBound,
{
    if scale < 0 {
        Predicate::UpperBound {
            domain_id: variable,
            upper_bound: store.get_upper_bound_after(variable, n),
        }
    } else {
        Predicate::LowerBound {
            domain_id: variable,
            lower_bound: store.get_lower_bound_after(variable, n),
        }
    }
}

/// The bounds on which the least value of the left-hand side rested after
/// the first `n` trail entries, but for the bound of `inferred`.
pub fn explain_by_bounds(
    inequality: &LinearLessOrEqual,
    store: &AssignmentsInteger,
    n: usize,
    inferred: Option<DomainId>,
) -> (r: Vec<Predicate>)
    requires
        store.wf(),
        inequality.valid_for(store@),
        n <= store@.trail.len(),
    ensures
        r@ == bounds_explanation(inequality.lhs@, store@, n as nat, inferred),
        covers_bounds(r@, inequality.lhs@, store@, n as nat, inferred),
        forall|i: int|
            0 <= i < r@.len() ==> (#[trigger] r@[i]).domain() is Some && store@.is_valid_domain(
                r@[i].domain()->0,
            ) && store@.predicate_holds_at(r@[i], n as nat) && (r@[i] is LowerBound
                || r@[i] is UpperBound),
{
    let terms = &inequality.lhs.0;
    let mut predicates: Vec<Predicate> = Vec::new();
    let mut i: usize = 0;
    while i < terms.len()
        invariant
            store.wf(),
            n <= store@.trail.len(),
            i <= terms@.len(),
            inequality.valid_for(store@),
            terms@ == inequality.lhs@,
            predicates@ == bounds_explanation(terms@.take(i as int), store@, n as nat, inferred),
            forall|k: int|
                0 <= k < i && Some((#[trigger] terms@[k]).0) != inferred ==> predicates@.contains(
                    bound_of(terms@[k], store@, n as nat),
                ),
            forall|k: int|
                0 <= k < predicates@.len() ==> (#[trigger] predicates@[k]).domain() is Some
                    && store@.is_valid_domain(predicates@[k].domain()->0) && store@.predicate_holds_at(
                    predicates@[k],
                    n as nat,
                ) && (predicates@[k] is LowerBound || predicates@[k] is UpperBound),
        decreases terms.len() - i,
    {
        let term = terms[i];
        assert(store@.is_valid_domain(terms@[i as int].0));
        proof {
            assert(terms@.take(i + 1).drop_last() =~= terms@.take(i as int));
        }
        let skip = match inferred {
            Some(variable) => variable == term.0,
            None => false,
        };
        if !skip {
            let predicate = bound_predicate(store, term.0, term.1, n);
            let ghost before = predicates@;
            predicates.push(predicate);
            proof {
                assert forall|k: int|
                    0 <= k < i + 1 && Some((#[trigger] terms@[k]).0) != inferred implies predicates@.contains(
                    bound_of(terms@[k], store@, n as nat),
                ) by {
                    lemma_push_keeps(before, predicate, bound_of(terms@[k], store@, n as nat));
                }
            }
        }
        i += 1;
    }
    proof {
        assert(terms@.take(terms@.len() as int) =~= terms@);
    }
    predicates
}

/// The product of a coefficient and a number one step outside `i32` at
/// most.
fn product(scale: i32, value: i64) -> (r: i128)
    requires
        i32::MIN - 1 <= value <= i32::MAX + 1,
    ensures
        r == scale * value,
        -0x4000_0001_0000_0000 <= r <= 0x4000_0001_0000_0000,
{
    proof {
        let a = scale as int;
        let b = value as int;
        assert(-0x4000_0001_0000_0000 <= a * b <= 0x4000_0001_0000_0000) by (nonlinear_arith)
            requires
                -0x8000_0000 <= a <= 0x7fff_ffff,
                -0x8000_0001 <= b <= 0x8000_0000,
        ;
    }
    scale as i128 * value as i128
}

/// Whether the inequality is seen to leave `predicate` no choice, given
/// the bounds that its other variables had after the first `n` trail
/// entries: whether, with the opposite of the predicate in the place of
/// the bound of its variable, the left-hand side cannot but exceed the
/// right-hand side.
pub fn is_implied_by_inequality(inequality: &LinearLessOrEqual, store: &AssignmentsInteger, n: usize, predicate: Predicate) -> (r:
    bool)
    requires
        store.wf(),
        inequality.wf(),
        inequality.valid_for(store@),
        n <= store@.trail.len(),
    ensures
        r == inequality_leaves_no_choice(inequality, store@, n as nat, predicate),
        r ==> is_consequence(inequality, store@, n as nat, predicate),
{
    let variable = match predicate.get_domain() {
        Some(variable) => variable,
        None => {
            return false;
        },
    };
    let scale = match inequality.find_variable_scale(variable) {
        Some(scale) => scale,
        None => {
            return false;
        },
    };
    if inequality.lhs.lb_overflows_after(store, n) {
        return false;
    }
    let total = inequality.lhs.lb_after(store, n);
    let ghost p = choose|p: int|
        0 <= p < inequality.lhs@.len() && #[trigger] inequality.lhs@[p] == (variable, scale);
    assert(store@.is_valid_domain(inequality.lhs@[p].0));
    proof {
        lemma_coefficient_of_term(inequality.lhs@, p);
    }
    let own = term_lower_bound_after(variable, scale, store, n);
    let rest: i128 = total as i128 - own as i128;
    let implied = match predicate {
        Predicate::UpperBound { upper_bound, .. } => scale > 0 && product(
            scale,
            upper_bound as i64 + 1,
        ) + rest > inequality.rhs as i128,
        Predicate::LowerBound { lower_bound, .. } => scale < 0 && product(
            scale,
            lower_bound as i64 - 1,
        ) + rest > inequality.rhs as i128,
        _ => false,
    };
    proof {
        if implied {
            assert forall|assignment: spec_fn(DomainId) -> int|
                inequality.holds(assignment) && #[trigger] meets_bounds(
                    assignment,
                    inequality.lhs@,
                    store@,
                    n as nat,
                    predicate.domain(),
                ) implies satisfies(assignment, predicate) by {
                let terms = inequality.lhs@;
                assert forall|i: int| 0 <= i < terms.len() && i != p implies satisfies(
                    assignment,
                    bound_of(#[trigger] terms[i], store@, n as nat),
                ) by {
                    if i < p {
                        assert(terms[i].0 != terms[p].0);
                    } else {
                        assert(terms[p].0 != terms[i].0);
                    }
                }
                lemma_sum_exceeds_by_term(assignment, terms, store@, n as nat, p);
                let a = scale as int;
                let value = assignment(variable);
                match predicate {
                    Predicate::UpperBound { upper_bound, .. } => {
                        if value > upper_bound {
                            assert(a * value >= a * (upper_bound + 1)) by (nonlinear_arith)
                                requires
                                    a > 0,
                                    value >= upper_bound + 1,
                            ;
                        }
                    },
                    Predicate::LowerBound { lower_bound, .. } => {
                        if value < lower_bound {
                            assert(a * value >= a * (lower_bound - 1)) by (nonlinear_arith)
                                requires
                                    a < 0,
                                    value <= lower_bound - 1,
                            ;
                        }
                    },
                    _ => {},
                }
            }
        }
    }
    implied
}

/// Whether the inequality is seen to fail whatever values were left after
/// the first `n` trail entries.
pub fn is_inequality_violated_after(inequality: &LinearLessOrEqual, store: &AssignmentsInteger, n: usize) -> (r: bool)
    requires
        store.wf(),
        inequality.wf(),
        inequality.valid_for(store@),
        n <= store@.trail.len(),
    ensures
        r == inequality_seen_violated(inequality, store@, n as nat),
        r ==> forall|assignment: spec_fn(DomainId) -> int|
            !(inequality.holds(assignment) && #[trigger] meets_bounds(
                assignment,
                inequality.lhs@,
                store@,
                n as nat,
                None,
            )),
{
    if inequality.lhs.lb_overflows_after(store, n) {
        return false;
    }
    let violated = inequality.is_conflicting_after(store, n);
    proof {
        if violated {
            assert forall|assignment: spec_fn(DomainId) -> int|
                !(inequality.holds(assignment) && #[trigger] meets_bounds(
                    assignment,
                    inequality.lhs@,
                    store@,
                    n as nat,
                    None,
                )) by {
                if meets_bounds(assignment, inequality.lhs@, store@, n as nat, None) {
                    lemma_sum_exceeds_by_term(assignment, inequality.lhs@, store@, n as nat, -1);
                }
            }
        }
    }
    violated
}

/// Under `assignment`, every variable of the constraint but `skip` has a
/// value between the bounds that it had after the first `n` trail entries.
pub open spec fn in_box(
    assignment: spec_fn(DomainId) -> int,
    propagator: &LinearInequalityLiteralPropagator,
    s: AssignmentsView,
    n: nat,
    skip: Option<DomainId>,
) -> bool {
    let terms = propagator.linear_inequality.lhs@;
    &&& forall|i: int|
        0 <= i < terms.len() && Some((#[trigger] terms[i]).0) != skip ==> s.lower_bound_at(
            terms[i].0,
            n,
        ) <= assignment(terms[i].0) <= s.upper_bound_at(terms[i].0, n)
    &&& Some(propagator.literal) != skip ==> s.lower_bound_at(propagator.literal, n) <= assignment(
        propagator.literal,
    ) <= s.upper_bound_at(propagator.literal, n)
}

/// Both bounds of every variable of the constraint but `skip` are among
/// the predicates.
pub open spec fn covers_box(
    predicates: Seq<Predicate>,
    propagator: &LinearInequalityLiteralPropagator,
    s: AssignmentsView,
    n: nat,
    skip: Option<DomainId>,
) -> bool {
    let terms = propagator.linear_inequality.lhs@;
    &&& forall|i: int|
        0 <= i < terms.len() && Some((#[trigger] terms[i]).0) != skip ==> predicates.contains(
            bound_of((terms[i].0, 1i32), s, n),
        ) && predicates.contains(bound_of((terms[i].0, -1i32), s, n))
    &&& Some(propagator.literal) != skip ==> predicates.contains(
        bound_of((propagator.literal, 1i32), s, n),
    ) && predicates.contains(bound_of((propagator.literal, -1i32), s, n))
}

/// What the bounds that explain an inference of `propagator` say of an
/// assignment: for a linear inequality, that every term but that of `skip`
/// is at least its least value; for an inequality tied to a literal, that
/// every variable but `skip` is within its bounds.
pub open spec fn in_reach(
    assignment: spec_fn(DomainId) -> int,
    propagator: &Propagator,
    s: AssignmentsView,
    n: nat,
    skip: Option<DomainId>,
) -> bool {
    match propagator {
        Propagator::LinearLessOrEqual(linear) => meets_bounds(
            assignment,
            linear.inequality.lhs@,
            s,
            n,
            skip,
        ),
        Propagator::LinearInequalityLiteral(tied) => in_box(assignment, tied, s, n, skip),
    }
}

/// `predicate` is true wherever the constraint of `propagator` holds and
/// the other variables keep the bounds that they had after the first `n`
/// trail entries.
pub open spec fn follows(propagator: &Propagator, s: AssignmentsView, n: nat, predicate: Predicate) -> bool {
    forall|assignment: spec_fn(DomainId) -> int|
        propagator.holds(assignment) && #[trigger] in_reach(
            assignment,
            propagator,
            s,
            n,
            predicate.domain(),
        ) ==> satisfies(assignment, predicate)
}

/// An assignment under which all the predicates are true keeps the bounds
/// that the variables of `propagator`, but for `skip`, had after the first
/// `n` trail entries.
pub open spec fn explains(
    predicates: Seq<Predicate>,
    propagator: &Propagator,
    s: AssignmentsView,
    n: nat,
    skip: Option<DomainId>,
) -> bool {
    forall|assignment: spec_fn(DomainId) -> int| #[trigger]
        agrees(assignment, predicates) ==> in_reach(assignment, propagator, s, n, skip)
}

/// An assignment that agrees with predicates that cover the box is in the
/// box.
pub proof fn lemma_box_is_met(
    assignment: spec_fn(DomainId) -> int,
    predicates: Seq<Predicate>,
    propagator: &LinearInequalityLiteralPropagator,
    s: AssignmentsView,
    n: nat,
    skip: Option<DomainId>,
)
    requires
        agrees(assignment, predicates),
        covers_box(predicates, propagator, s, n, skip),
    ensures
        in_box(assignment, propagator, s, n, skip),
{
    let terms = propagator.linear_inequality.lhs@;
    assert forall|i: int|
        0 <= i < terms.len() && Some((#[trigger] terms[i]).0) != skip implies s.lower_bound_at(
        terms[i].0,
        n,
    ) <= assignment(terms[i].0) <= s.upper_bound_at(terms[i].0, n) by {
        lemma_agrees_with_each(assignment, predicates, bound_of((terms[i].0, 1i32), s, n));
        lemma_agrees_with_each(assignment, predicates, bound_of((terms[i].0, -1i32), s, n));
    }
    if Some(propagator.literal) != skip {
        lemma_agrees_with_each(assignment, predicates, bound_of((propagator.literal, 1i32), s, n));
        lemma_agrees_with_each(assignment, predicates, bound_of((propagator.literal, -1i32), s, n));
    }
}

/// Both bounds that every variable of the constraint but `inferred` had
/// after the first `n` trail entries.
fn explain_by_box(
    propagator: &LinearInequalityLiteralPropagator,
    store: &AssignmentsInteger,
    n: usize,
    inferred: Option<DomainId>,
) -> (r: Vec<Predicate>)
    requires
        store.wf(),
        propagator.wf(store@),
        n <= store@.trail.len(),
    ensures
        r@ == box_explanation(propagator.variables(), store@, n as nat, inferred),
        covers_box(r@, propagator, store@, n as nat, inferred),
        forall|i: int|
            0 <= i < r@.len() ==> (#[trigger] r@[i]).domain() is Some && store@.is_valid_domain(
                r@[i].domain()->0,
            ) && store@.predicate_holds_at(r@[i], n as nat) && (r@[i] is LowerBound
                || r@[i] is UpperBound),
{
    let terms = &propagator.linear_inequality.lhs.0;
    let ghost variables = propagator.variables();
    let mut predicates: Vec<Predicate> = Vec::new();
    let mut i: usize = 0;
    while i < terms.len()
        invariant
            store.wf(),
            propagator.wf(store@),
            n <= store@.trail.len(),
            i <= terms@.len(),
            terms@ == propagator.linear_inequality.lhs@,
            variables == propagator.variables(),
            predicates@ == box_explanation(variables.take(i as int), store@, n as nat, inferred),
            forall|k: int|
                0 <= k < i && Some((#[trigger] terms@[k]).0) != inferred ==> predicates@.contains(
                    bound_of((terms@[k].0, 1i32), store@, n as nat),
                ) && predicates@.contains(bound_of((terms@[k].0, -1i32), store@, n as nat)),
            forall|k: int|
                0 <= k < predicates@.len() ==> (#[trigger] predicates@[k]).domain() is Some
                    && store@.is_valid_domain(predicates@[k].domain()->0) && store@.predicate_holds_at(
                    predicates@[k],
                    n as nat,
                ) && (predicates@[k] is LowerBound || predicates@[k] is UpperBound),
        decreases terms.len() - i,
    {
        let variable = terms[i].0;
        assert(store@.is_valid_domain(terms@[i as int].0));
        proof {
            assert(variables.take(i + 1).drop_last() =~= variables.take(i as int));
            assert(variables.take(i + 1).last() == variable);
        }
        let skip = match inferred {
            Some(other) => other == variable,
            None => false,
        };
        if !skip {
            push_both_bounds(&mut predicates, store, variable, n);
        }
        i += 1;
    }
    proof {
        assert(variables.drop_last() =~= variables.take(terms@.len() as int));
        assert(variables.last() == propagator.literal);
    }
    let skip = match inferred {
        Some(other) => other == propagator.literal,
        None => false,
    };
    if !skip {
        push_both_bounds(&mut predicates, store, propagator.literal, n);
    }
    predicates
}

/// Appends both bounds that `variable` had after the first `n` trail
/// entries.
fn push_both_bounds(predicates: &mut Vec<Predicate>, store: &AssignmentsInteger, variable: DomainId, n: usize)
    requires
        store.wf(),
        store@.is_valid_domain(variable),
        n <= store@.trail.len(),
        forall|k: int|
            0 <= k < old(predicates)@.len() ==> (#[trigger] old(predicates)@[k]).domain() is Some
                && store@.is_valid_domain(old(predicates)@[k].domain()->0) && store@.predicate_holds_at(
                old(predicates)@[k],
                n as nat,
            ) && (old(predicates)@[k] is LowerBound || old(predicates)@[k] is UpperBound),
    ensures
        final(predicates)@ == old(predicates)@.push(bound_of((variable, 1i32), store@, n as nat)).push(
            bound_of((variable, -1i32), store@, n as nat),
        ),
        forall|other: Predicate|
            old(predicates)@.contains(other) ==> #[trigger] final(predicates)@.contains(other),
        final(predicates)@.contains(bound_of((variable, 1i32), store@, n as nat)),
        final(predicates)@.contains(bound_of((variable, -1i32), store@, n as nat)),
        forall|k: int|
            0 <= k < final(predicates)@.len() ==> (#[trigger] final(predicates)@[k]).domain() is Some
                && store@.is_valid_domain(final(predicates)@[k].domain()->0)
                && store@.predicate_holds_at(final(predicates)@[k], n as nat) && (
            final(predicates)@[k] is LowerBound || final(predicates)@[k] is UpperBound),
{
    let lower = bound_predicate(store, variable, 1, n);
    let upper = bound_predicate(store, variable, -1, n);
    let ghost before = predicates@;
    predicates.push(lower);
    predicates.push(upper);
    proof {
        assert forall|other: Predicate| before.contains(other) implies #[trigger] predicates@.contains(
            other,
        ) by {
            lemma_push_keeps(before, lower, other);
            lemma_push_keeps(before.push(lower), upper, other);
        }
        lemma_push_keeps(before, lower, lower);
        lemma_push_keeps(before.push(lower), upper, lower);
        lemma_push_keeps(before.push(lower), upper, upper);
    }
}

/// The bounds that explain an inference of `propagator` on `inferred`, or
/// a conflict where `inferred` is `None`, after the first `n` trail
/// entries: for a linear inequality the bounds on which the least value of
/// its left-hand side rests, for an inequality tied to a literal both
/// bounds of every variable.
pub fn explain(propagator: &Propagator, store: &AssignmentsInteger, n: usize, inferred: Option<DomainId>) -> (r:
    Vec<Predicate>)
    requires
        store.wf(),
        propagator.wf(store@),
        n <= store@.trail.len(),
    ensures
        r@ == explanation(propagator, store@, n as nat, inferred),
        explains(r@, propagator, store@, n as nat, inferred),
        forall|i: int|
            0 <= i < r@.len() ==> (#[trigger] r@[i]).domain() is Some && store@.is_valid_domain(
                r@[i].domain()->0,
            ) && store@.predicate_holds_at(r@[i], n as nat) && (r@[i] is LowerBound
                || r@[i] is UpperBound),
{
    match propagator {
        Propagator::LinearLessOrEqual(linear) => {
            let predicates = explain_by_bounds(&linear.inequality, store, n, inferred);
            proof {
                assert forall|assignment: spec_fn(DomainId) -> int| #[trigger]
                    agrees(assignment, predicates@) implies in_reach(
                    assignment,
                    propagator,
                    store@,
                    n as nat,
                    inferred,
                ) by {
                    lemma_cover_is_met(
                        assignment,
                        predicates@,
                        linear.inequality.lhs@,
                        store@,
                        n as nat,
                        inferred,
                    );
                }
            }
            predicates
        },
        Propagator::LinearInequalityLiteral(tied) => {
            let predicates = explain_by_box(tied, store, n, inferred);
            proof {
                assert forall|assignment: spec_fn(DomainId) -> int| #[trigger]
                    agrees(assignment, predicates@) implies in_reach(
                    assignment,
                    propagator,
                    store@,
                    n as nat,
                    inferred,
                ) by {
                    lemma_box_is_met(assignment, predicates@, tied, store@, n as nat, inferred);
                }
            }
            predicates
        },
    }
}

/// Whether the constraint is seen to leave `predicate` no choice, given
/// the bounds that its other variables had after the first `n` trail
/// entries. For the literal: whether the inequality then held, or failed,
/// whatever values were left. For the variable of an inequality of one
/// term, with the literal fixed: whether the opposite of the predicate
/// goes against the inequality, or against its negation.
fn is_implied_by_tied_inequality(
    propagator: &LinearInequalityLiteralPropagator,
    store: &AssignmentsInteger,
    n: usize,
    predicate: Predicate,
) -> (r: bool)
    requires
        store.wf(),
        propagator.wf(store@),
        n <= store@.trail.len(),
    ensures
        r == tied_inequality_leaves_no_choice(propagator, store@, n as nat, predicate),
        r ==> forall|assignment: spec_fn(DomainId) -> int|
            propagator.holds(assignment) && #[trigger] in_box(
                assignment,
                propagator,
                store@,
                n as nat,
                predicate.domain(),
            ) ==> satisfies(assignment, predicate),
{
    let variable = match predicate.get_domain() {
        Some(variable) => variable,
        None => {
            return false;
        },
    };
    let inequality = &propagator.linear_inequality;
    let rhs = inequality.rhs as i128;
    let ghost s = store@;
    let ghost terms = inequality.lhs@;
    if variable == propagator.literal {
        let (least, greatest) = bounds_of_lhs(inequality, store, n);
        let implied = match predicate {
            Predicate::LowerBound { lower_bound, .. } => lower_bound <= 1 && greatest <= rhs,
            Predicate::UpperBound { upper_bound, .. } => upper_bound >= 0 && least > rhs,
            _ => false,
        };
        proof {
            if implied {
                assert forall|assignment: spec_fn(DomainId) -> int|
                    propagator.holds(assignment) && #[trigger] in_box(
                        assignment,
                        propagator,
                        s,
                        n as nat,
                        predicate.domain(),
                    ) implies satisfies(assignment, predicate) by {
                    assert forall|i: int| 0 <= i < terms.len() implies s.lower_bound_at(
                        (#[trigger] terms[i]).0,
                        n as nat,
                    ) <= assignment(terms[i].0) <= s.upper_bound_at(terms[i].0, n as nat) by {
                        assert(terms[i].0 != propagator.literal);
                    }
                    lemma_sum_within_bounds_at(terms, s, n as nat, assignment);
                }
            }
        }
        implied
    } else if inequality.lhs.len() == 1 && inequality.lhs.0[0].0 == variable {
        let scale = inequality.lhs.0[0].1;
        assert(store@.is_valid_domain(terms[0].0));
        let literal_lower = store.get_lower_bound_after(propagator.literal, n);
        let literal_upper = store.get_upper_bound_after(propagator.literal, n);
        let implied = if literal_lower >= 1 {
            match predicate {
                Predicate::UpperBound { upper_bound, .. } => scale > 0 && product(
                    scale,
                    upper_bound as i64 + 1,
                ) > rhs,
                Predicate::LowerBound { lower_bound, .. } => scale < 0 && product(
                    scale,
                    lower_bound as i64 - 1,
                ) > rhs,
                _ => false,
            }
        } else if literal_upper <= 0 {
            match predicate {
                Predicate::LowerBound { lower_bound, .. } => scale > 0 && product(
                    scale,
                    lower_bound as i64 - 1,
                ) <= rhs,
                Predicate::UpperBound { upper_bound, .. } => scale < 0 && product(
                    scale,
                    upper_bound as i64 + 1,
                ) <= rhs,
                _ => false,
            }
        } else {
            false
        };
        proof {
            if implied {
                assert forall|assignment: spec_fn(DomainId) -> int|
                    propagator.holds(assignment) && #[trigger] in_box(
                        assignment,
                        propagator,
                        s,
                        n as nat,
                        predicate.domain(),
                    ) implies satisfies(assignment, predicate) by {
                    let a = scale as int;
                    let value = assignment(variable);
                    assert(terms.drop_last().len() == 0);
                    assert(evaluate(terms.drop_last(), assignment) == 0);
                    assert(terms.last() == terms[0]);
                    assert(evaluate(terms, assignment) == a * value);
                    assert(propagator.literal != variable);
                    match predicate {
                        Predicate::UpperBound { upper_bound, .. } => {
                            if value > upper_bound {
                                if a > 0 {
                                    assert(a * value >= a * (upper_bound + 1)) by (nonlinear_arith)
                                        requires
                                            a > 0,
                                            value >= upper_bound + 1,
                                    ;
                                } else {
                                    assert(a * value <= a * (upper_bound + 1)) by (nonlinear_arith)
                                        requires
                                            a < 0,
                                            value >= upper_bound + 1,
                                    ;
                                }
                            }
                        },
                        Predicate::LowerBound { lower_bound, .. } => {
                            if value < lower_bound {
                                if a > 0 {
                                    assert(a * value <= a * (lower_bound - 1)) by (nonlinear_arith)
                                        requires
                                            a > 0,
                                            value <= lower_bound - 1,
                                    ;
                                } else {
                                    assert(a * value >= a * (lower_bound - 1)) by (nonlinear_arith)
                                        requires
                                            a < 0,
                                            value <= lower_bound - 1,
                                    ;
                                }
                            }
                        },
                        _ => {},
                    }
                }
            }
        }
        implied
    } else {
        false
    }
}

/// Whether the constraint of `propagator` is seen to leave `predicate` no
/// choice, given the bounds that its other variables had after the first
/// `n` trail entries.
pub fn is_implied(propagator: &Propagator, store: &AssignmentsInteger, n: usize, predicate: Predicate) -> (r:
    bool)
    requires
        store.wf(),
        propagator.wf(store@),
        n <= store@.trail.len(),
    ensures
        r == leaves_no_choice(propagator, store@, n as nat, predicate),
        r ==> follows(propagator, store@, n as nat, predicate),
{
    match propagator {
        Propagator::LinearLessOrEqual(linear) => {
            let implied = is_implied_by_inequality(&linear.inequality, store, n, predicate);
            proof {
                if implied {
                    assert forall|assignment: spec_fn(DomainId) -> int|
                        propagator.holds(assignment) && #[trigger] in_reach(
                            assignment,
                            propagator,
                            store@,
                            n as nat,
                            predicate.domain(),
                        ) implies satisfies(assignment, predicate) by {
                        assert(meets_bounds(
                            assignment,
                            linear.inequality.lhs@,
                            store@,
                            n as nat,
                            predicate.domain(),
                        ));
                    }
                }
            }
            implied
        },
        Propagator::LinearInequalityLiteral(tied) => {
            let implied = is_implied_by_tied_inequality(tied, store, n, predicate);
            proof {
                if implied {
                    assert forall|assignment: spec_fn(DomainId) -> int|
                        propagator.holds(assignment) && #[trigger] in_reach(
                            assignment,
                            propagator,
                            store@,
                            n as nat,
                            predicate.domain(),
                        ) implies satisfies(assignment, predicate) by {
                        assert(in_box(assignment, tied, store@, n as nat, predicate.domain()));
                    }
                }
            }
            implied
        },
    }
}

/// Whether the constraint of `propagator` is seen to fail whatever values
/// were left after the first `n` trail entries.
pub fn is_violated_after(propagator: &Propagator, store: &AssignmentsInteger, n: usize) -> (r: bool)
    requires
        store.wf(),
        propagator.wf(store@),
        n <= store@.trail.len(),
    ensures
        r == seen_violated(propagator, store@, n as nat),
        r ==> forall|assignment: spec_fn(DomainId) -> int|
            !(propagator.holds(assignment) && #[trigger] in_reach(
                assignment,
                propagator,
                store@,
                n as nat,
                None,
            )),
{
    match propagator {
        Propagator::LinearLessOrEqual(linear) => {
            let violated = is_inequality_violated_after(&linear.inequality, store, n);
            proof {
                if violated {
                    assert forall|assignment: spec_fn(DomainId) -> int|
                        !(propagator.holds(assignment) && #[trigger] in_reach(
                            assignment,
                            propagator,
                            store@,
                            n as nat,
                            None,
                        )) by {
                        if in_reach(assignment, propagator, store@, n as nat, None) {
                            assert(meets_bounds(
                                assignment,
                                linear.inequality.lhs@,
                                store@,
                                n as nat,
                                None,
                            ));
                        }
                    }
                }
            }
            violated
        },
        Propagator::LinearInequalityLiteral(tied) => {
            let inequality = &tied.linear_inequality;
            let (least, greatest) = bounds_of_lhs(inequality, store, n);
            let literal_lower = store.get_lower_bound_after(tied.literal, n);
            let literal_upper = store.get_upper_bound_after(tied.literal, n);
            let rhs = inequality.rhs as i128;
            let violated = (greatest <= rhs && literal_upper <= 0) || (least > rhs && literal_lower >= 1);
            proof {
                if violated {
                    let s = store@;
                    let terms = inequality.lhs@;
                    assert forall|assignment: spec_fn(DomainId) -> int|
                        !(propagator.holds(assignment) && #[trigger] in_reach(
                            assignment,
                            propagator,
                            s,
                            n as nat,
                            None,
                        )) by {
                        if in_reach(assignment, propagator, s, n as nat, None) {
                            assert(in_box(assignment, tied, s, n as nat, None));
                            assert forall|i: int| 0 <= i < terms.len() implies s.lower_bound_at(
                                (#[trigger] terms[i]).0,
                                n as nat,
                            ) <= assignment(terms[i].0) <= s.upper_bound_at(terms[i].0, n as nat) by {}
                            lemma_sum_within_bounds_at(terms, s, n as nat, assignment);
                        }
                    }
                }
            }
            violated
        },
    }
}

} // verus!
