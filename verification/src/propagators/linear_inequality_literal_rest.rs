//! When an inequality tied to a literal has nothing more to infer, and that
//! its propagation ends there.

use vstd::prelude::*;
use crate::basic_types::arithmetic::div_ceil;
use crate::basic_types::arithmetic::div_floor;
use crate::basic_types::arithmetic::lemma_div_ceil_bounds;
use crate::basic_types::arithmetic::lemma_div_floor_bounds;
use crate::basic_types::domain_id::DomainId;
use crate::basic_types::linear_terms::lower_bound_sum;
use crate::basic_types::linear_terms::term_lower_bound;
use crate::basic_types::linear_terms::term_upper_bound;
use crate::basic_types::linear_terms::terms_valid;
use crate::basic_types::linear_terms::upper_bound_sum;
use crate::basic_types::variables::tighten_lower_bound_to;
use crate::basic_types::variables::tighten_upper_bound_to;
use crate::engine::assignments_laws::lemma_tighten_lower_bound_result;
use crate::engine::assignments_laws::lemma_tighten_upper_bound_result;
use crate::engine::assignments_view::AssignmentsView;
use crate::engine::assignments_view::ReasonRef;
use crate::engine::propagation::waking::lemma_least_value_grows;
use crate::engine::propagation::waking::lemma_term_bounds_narrow;
use crate::engine::solutions::lemma_sum_within_bounds;
use crate::engine::solutions::within;
use crate::propagators::linear_inequality_literal_propagator::LinearInequalityLiteralPropagator;

verus! {

/// `t` has the variables of `s`, and no bound of `t` lies outside the
/// bound of `s`.
pub open spec fn narrows(s: AssignmentsView, t: AssignmentsView) -> bool {
    &&& t.initial_bounds == s.initial_bounds
    &&& forall|y: DomainId|
        s.is_valid_domain(y) ==> #[trigger] t.lower_bound(y) >= s.lower_bound(y) && t.upper_bound(y)
            <= s.upper_bound(y)
}

/// The sum of the greatest values only shrinks where the bounds only
/// narrow.
pub proof fn lemma_greatest_value_shrinks(terms: Seq<(DomainId, i32)>, s: AssignmentsView, t: AssignmentsView)
    requires
        forall|k: int|
            0 <= k < terms.len() ==> t.lower_bound((#[trigger] terms[k]).0) >= s.lower_bound(terms[k].0)
                && t.upper_bound(terms[k].0) <= s.upper_bound(terms[k].0),
    ensures
        upper_bound_sum(terms, t, t.trail.len()) <= upper_bound_sum(terms, s, s.trail.len()),
    decreases terms.len(),
{
    if terms.len() > 0 {
        let rest = terms.drop_last();
        assert forall|k: int| 0 <= k < rest.len() implies t.lower_bound((#[trigger] rest[k]).0)
            >= s.lower_bound(rest[k].0) && t.upper_bound(rest[k].0) <= s.upper_bound(rest[k].0) by {
            assert(rest[k] == terms[k]);
        }
        lemma_greatest_value_shrinks(rest, s, t);
        assert(terms[terms.len() - 1] == terms.last());
        lemma_term_bounds_narrow(terms.last(), s, t);
    }
}

/// Where the bounds only narrow, the least value of a sum only grows and
/// its greatest value only shrinks.
pub proof fn lemma_sums_narrow(terms: Seq<(DomainId, i32)>, s: AssignmentsView, t: AssignmentsView)
    requires
        terms_valid(terms, s),
        narrows(s, t),
    ensures
        lower_bound_sum(terms, t, t.trail.len()) >= lower_bound_sum(terms, s, s.trail.len()),
        upper_bound_sum(terms, t, t.trail.len()) <= upper_bound_sum(terms, s, s.trail.len()),
{
    assert forall|k: int| 0 <= k < terms.len() implies t.lower_bound((#[trigger] terms[k]).0)
        >= s.lower_bound(terms[k].0) && t.upper_bound(terms[k].0) <= s.upper_bound(terms[k].0) by {
        assert(s.is_valid_domain(terms[k].0));
        assert(t.lower_bound(terms[k].0) >= s.lower_bound(terms[k].0));
    }
    lemma_least_value_grows(terms, s, t);
    lemma_greatest_value_shrinks(terms, s, t);
}

/// The least value of a sum is at most its greatest value.
pub proof fn lemma_sums_ordered(terms: Seq<(DomainId, i32)>, s: AssignmentsView)
    requires
        s.wf(),
        terms_valid(terms, s),
    ensures
        lower_bound_sum(terms, s, s.trail.len()) <= upper_bound_sum(terms, s, s.trail.len()),
{
    let least = |x: DomainId| s.lower_bound(x);
    assert forall|x: DomainId| s.is_valid_domain(x) implies #[trigger] s.contains(x, least(x)) by {
        assert(s.state_at(x, s.trail.len()).consistent());
    }
    assert(within(least, s));
    lemma_sum_within_bounds(terms, s, least);
}

/// The bounds of a sum of one term are those of the term.
pub proof fn lemma_sums_of_one_term(terms: Seq<(DomainId, i32)>, s: AssignmentsView)
    requires
        terms.len() == 1,
    ensures
        lower_bound_sum(terms, s, s.trail.len()) == term_lower_bound(terms[0], s, s.trail.len()),
        upper_bound_sum(terms, s, s.trail.len()) == term_upper_bound(terms[0], s, s.trail.len()),
{
    assert(terms.drop_last().len() == 0);
    assert(lower_bound_sum(terms.drop_last(), s, s.trail.len()) == 0);
    assert(upper_bound_sum(terms.drop_last(), s, s.trail.len()) == 0);
    assert(terms.last() == terms[0]);
}

/// Tightening a lower bound to a value that may lie outside `i32` only
/// narrows, and where it succeeds the bound is at least the value.
pub proof fn lemma_lower_bound_to(s: AssignmentsView, x: DomainId, value: int, reason: Option<ReasonRef>)
    requires
        s.wf(),
        s.is_valid_domain(x),
    ensures
        ({
            let r = tighten_lower_bound_to(s, x, value, reason);
            &&& r.0.wf()
            &&& narrows(s, r.0)
            &&& r.1 ==> r.0.lower_bound(x) >= value
            &&& !r.1 ==> r.0 == s
            &&& forall|y: DomainId| s.is_valid_domain(y) && y != x ==> r.0.state(y) == s.state(y)
        }),
{
    assert(s.state_at(x, s.trail.len()).consistent());
    if i32::MIN <= value <= i32::MAX && value <= s.upper_bound(x) {
        lemma_tighten_lower_bound_result(s, x, value as i32, reason);
        let t = s.tighten_lower_bound(x, value as i32, reason).0;
        assert forall|y: DomainId| s.is_valid_domain(y) implies #[trigger] t.lower_bound(y)
            >= s.lower_bound(y) && t.upper_bound(y) <= s.upper_bound(y) by {
            if y != x {
                assert(t.state(y) == s.state(y));
            }
        }
    }
}

/// Tightening an upper bound to a value that may lie outside `i32` only
/// narrows, and where it succeeds the bound is at most the value.
pub proof fn lemma_upper_bound_to(s: AssignmentsView, x: DomainId, value: int, reason: Option<ReasonRef>)
    requires
        s.wf(),
        s.is_valid_domain(x),
    ensures
        ({
            let r = tighten_upper_bound_to(s, x, value, reason);
            &&& r.0.wf()
            &&& narrows(s, r.0)
            &&& r.1 ==> r.0.upper_bound(x) <= value
            &&& !r.1 ==> r.0 == s
            &&& forall|y: DomainId| s.is_valid_domain(y) && y != x ==> r.0.state(y) == s.state(y)
        }),
{
    assert(s.state_at(x, s.trail.len()).consistent());
    if i32::MIN <= value <= i32::MAX && value >= s.lower_bound(x) {
        lemma_tighten_upper_bound_result(s, x, value as i32, reason);
        let t = s.tighten_upper_bound(x, value as i32, reason).0;
        assert forall|y: DomainId| s.is_valid_domain(y) implies #[trigger] t.lower_bound(y)
            >= s.lower_bound(y) && t.upper_bound(y) <= s.upper_bound(y) by {
            if y != x {
                assert(t.state(y) == s.state(y));
            }
        }
    }
}

impl LinearInequalityLiteralPropagator {
    /// The bound that the second step of propagation sets holds already.
    pub open spec fn follows_literal(&self, s: AssignmentsView) -> bool {
        let x = self.linear_inequality.lhs@[0].0;
        let a = self.linear_inequality.lhs@[0].1 as int;
        let rhs = self.linear_inequality.rhs as int;
        if s.lower_bound(self.literal) >= 1 {
            if a > 0 {
                s.upper_bound(x) <= div_floor(rhs, a)
            } else {
                s.lower_bound(x) >= div_ceil(rhs, a)
            }
        } else {
            if a > 0 {
                s.lower_bound(x) >= div_ceil(rhs + 1, a)
            } else {
                s.upper_bound(x) <= div_floor(rhs + 1, a)
            }
        }
    }

    /// Nothing is left to infer: where the inequality holds whatever
    /// values are left, the literal is at least 1; where it fails whatever
    /// values are left, the literal is at most 0; and where the inequality
    /// has one term and the literal is fixed, the variable of the term has
    /// the bound that the inequality, or its opposite, gives it.
    pub open spec fn at_rest(&self, s: AssignmentsView) -> bool {
        let terms = self.linear_inequality.lhs@;
        let rhs = self.linear_inequality.rhs as int;
        &&& upper_bound_sum(terms, s, s.trail.len()) <= rhs ==> s.lower_bound(self.literal) >= 1
        &&& lower_bound_sum(terms, s, s.trail.len()) > rhs ==> s.upper_bound(self.literal) <= 0
        &&& terms.len() == 1 && s.lower_bound(self.literal) == s.upper_bound(self.literal)
            ==> self.follows_literal(s)
    }

    /// Where nothing is left to infer, propagation changes nothing and
    /// succeeds.
    pub proof fn lemma_propagation_rests(&self, s: AssignmentsView, reason: Option<ReasonRef>)
        requires
            s.wf(),
            self.wf(s),
            self.at_rest(s),
        ensures
            self.spec_propagate(s, reason) == (s, true),
    {
        let terms = self.linear_inequality.lhs@;
        assert(s.state_at(self.literal, s.trail.len()).consistent());
        assert(self.spec_first_step(s, reason) == (s, true));
        if terms.len() == 1 && s.lower_bound(self.literal) == s.upper_bound(self.literal) {
            let x = terms[0].0;
            assert(s.is_valid_domain(terms[0].0));
            assert(s.state_at(x, s.trail.len()).consistent());
        }
    }

    /// After propagation that succeeded, nothing is left to infer.
    pub proof fn lemma_propagation_comes_to_rest(&self, s: AssignmentsView, reason: Option<ReasonRef>)
        requires
            s.wf(),
            self.wf(s),
            self.spec_propagate(s, reason).1,
        ensures
            self.at_rest(self.spec_propagate(s, reason).0),
            self.spec_propagate(s, reason).0.wf(),
            self.wf(self.spec_propagate(s, reason).0),
    {
        let terms = self.linear_inequality.lhs@;
        let rhs = self.linear_inequality.rhs as int;
        let p = self.literal;
        let first = self.spec_first_step(s, reason);
        let middle = first.0;
        let t = self.spec_propagate(s, reason).0;
        assert(s.state_at(p, s.trail.len()).consistent());
        lemma_lower_bound_to(s, p, 1, reason);
        lemma_upper_bound_to(s, p, 0, reason);
        assert(middle.wf());
        assert(narrows(s, middle));
        assert(terms_valid(terms, middle)) by {
            assert forall|k: int| 0 <= k < terms.len() implies middle.is_valid_domain(
                (#[trigger] terms[k]).0,
            ) by {
                assert(s.is_valid_domain(terms[k].0));
            }
        }
        let applies = terms.len() == 1 && middle.lower_bound(p) == middle.upper_bound(p);
        if applies {
            let x = terms[0].0;
            let a = terms[0].1 as int;
            assert(s.is_valid_domain(terms[0].0));
            assert(terms[0].1 != 0);
            assert(x != p);
            lemma_lower_bound_to(middle, x, div_ceil(rhs, a), reason);
            lemma_upper_bound_to(middle, x, div_floor(rhs, a), reason);
            lemma_lower_bound_to(middle, x, div_ceil(rhs + 1, a), reason);
            lemma_upper_bound_to(middle, x, div_floor(rhs + 1, a), reason);
            assert(t.state(p) == middle.state(p));
        } else {
            assert(t == middle);
        }
        assert(t.wf());
        assert(narrows(middle, t));
        assert(terms_valid(terms, t)) by {
            assert forall|k: int| 0 <= k < terms.len() implies t.is_valid_domain((#[trigger] terms[k]).0) by {
                assert(s.is_valid_domain(terms[k].0));
            }
        }
        lemma_sums_narrow(terms, s, middle);
        lemma_sums_narrow(terms, middle, t);
        lemma_sums_ordered(terms, t);
        assert(t.lower_bound(p) == middle.lower_bound(p) && t.upper_bound(p) == middle.upper_bound(p));
        let entailed = upper_bound_sum(terms, s, s.trail.len()) <= rhs;
        let violated = lower_bound_sum(terms, s, s.trail.len()) > rhs;
        if !entailed && !violated && applies {
            // the second step alone decides what holds of the sums afterwards
            let x = terms[0].0;
            let a = terms[0].1 as int;
            lemma_sums_of_one_term(terms, t);
            lemma_div_floor_bounds(rhs, a);
            lemma_div_ceil_bounds(rhs, a);
            lemma_div_floor_bounds(rhs + 1, a);
            lemma_div_ceil_bounds(rhs + 1, a);
            let lower = t.lower_bound(x);
            let upper = t.upper_bound(x);
            if middle.lower_bound(p) >= 1 {
                if a > 0 {
                    let bound = div_floor(rhs, a);
                    assert(a * upper <= a * bound) by (nonlinear_arith)
                        requires
                            a > 0,
                            upper <= bound,
                    ;
                } else {
                    let bound = div_ceil(rhs, a);
                    assert(a * lower <= a * bound) by (nonlinear_arith)
                        requires
                            a < 0,
                            lower >= bound,
                    ;
                }
            } else {
                if a > 0 {
                    let bound = div_ceil(rhs + 1, a);
                    assert(a * lower >= a * bound) by (nonlinear_arith)
                        requires
                            a > 0,
                            lower >= bound,
                    ;
                } else {
                    let bound = div_floor(rhs + 1, a);
                    assert(a * upper >= a * bound) by (nonlinear_arith)
                        requires
                            a < 0,
                            upper <= bound,
                    ;
                }
            }
        }
    }

    /// Propagation that has succeeded changes nothing when it is run
    /// again, and succeeds again.
    pub proof fn lemma_second_propagation_changes_nothing(
        &self,
        s: AssignmentsView,
        first_reason: Option<ReasonRef>,
        second_reason: Option<ReasonRef>,
    )
        requires
            s.wf(),
            self.wf(s),
            self.spec_propagate(s, first_reason).1,
        ensures
            self.spec_propagate(self.spec_propagate(s, first_reason).0, second_reason) == (
                self.spec_propagate(s, first_reason).0,
                true,
            ),
    {
        self.lemma_propagation_comes_to_rest(s, first_reason);
        self.lemma_propagation_rests(self.spec_propagate(s, first_reason).0, second_reason);
    }
}

} // verus!
