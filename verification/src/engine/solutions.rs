//! Assignments and domains: what it means that an assignment lies within
//! the domains, and why propagation keeps every solution there.

use vstd::prelude::*;
use crate::basic_types::arithmetic::div_ceil;
use crate::basic_types::arithmetic::div_floor;
use crate::basic_types::arithmetic::lemma_div_ceil_bounds;
use crate::basic_types::arithmetic::lemma_div_floor_bounds;
use crate::basic_types::domain_id::DomainId;
use crate::basic_types::linear_terms::evaluate;
use crate::basic_types::linear_terms::lower_bound_sum;
use crate::basic_types::linear_terms::term_lower_bound;
use crate::basic_types::linear_terms::term_upper_bound;
use crate::basic_types::linear_terms::terms_valid;
use crate::basic_types::linear_terms::upper_bound_sum;
use crate::engine::assignments_laws::lemma_tighten_lower_bound_result;
use crate::engine::assignments_laws::lemma_tighten_upper_bound_result;
use crate::engine::assignments_view::AssignmentsView;
use crate::basic_types::variables::tighten_lower_bound_to;
use crate::basic_types::variables::tighten_upper_bound_to;
use crate::engine::assignments_view::ReasonRef;

verus! {

/// Every variable has, under `assignment`, a value of its domain.
pub open spec fn within(assignment: spec_fn(DomainId) -> int, s: AssignmentsView) -> bool {
    forall|x: DomainId| s.is_valid_domain(x) ==> #[trigger] s.contains(x, assignment(x))
}

/// An upper bound that the value of `x` meets can be set; the assignment
/// is within the domains afterwards as before.
pub proof fn lemma_tighten_upper_bound_keeps(
    s: AssignmentsView,
    x: DomainId,
    value: i32,
    reason: Option<ReasonRef>,
    assignment: spec_fn(DomainId) -> int,
)
    requires
        s.wf(),
        s.is_valid_domain(x),
        within(assignment, s),
        assignment(x) <= value,
    ensures
        s.tighten_upper_bound(x, value, reason).1,
        within(assignment, s.tighten_upper_bound(x, value, reason).0),
{
    let t = s.tighten_upper_bound(x, value, reason).0;
    assert(s.contains(x, assignment(x)));
    lemma_tighten_upper_bound_result(s, x, value, reason);
    assert forall|y: DomainId| t.is_valid_domain(y) implies #[trigger] t.contains(y, assignment(y)) by {
        assert(s.is_valid_domain(y));
        assert(s.contains(y, assignment(y)));
        if y != x {
            assert(t.state(y) == s.state(y));
        } else {
            if assignment(x) > t.upper_bound(x) {
                assert(!s.contains(x, assignment(x)));
            }
        }
    }
}

/// A lower bound that the value of `x` meets can be set; the assignment
/// is within the domains afterwards as before.
pub proof fn lemma_tighten_lower_bound_keeps(
    s: AssignmentsView,
    x: DomainId,
    value: i32,
    reason: Option<ReasonRef>,
    assignment: spec_fn(DomainId) -> int,
)
    requires
        s.wf(),
        s.is_valid_domain(x),
        within(assignment, s),
        assignment(x) >= value,
    ensures
        s.tighten_lower_bound(x, value, reason).1,
        within(assignment, s.tighten_lower_bound(x, value, reason).0),
{
    let t = s.tighten_lower_bound(x, value, reason).0;
    assert(s.contains(x, assignment(x)));
    lemma_tighten_lower_bound_result(s, x, value, reason);
    assert forall|y: DomainId| t.is_valid_domain(y) implies #[trigger] t.contains(y, assignment(y)) by {
        assert(s.is_valid_domain(y));
        assert(s.contains(y, assignment(y)));
        if y != x {
            assert(t.state(y) == s.state(y));
        } else {
            if assignment(x) < t.lower_bound(x) {
                assert(!s.contains(x, assignment(x)));
            }
        }
    }
}

/// The value of a term lies between its least and its greatest value.
pub proof fn lemma_term_within_bounds(
    term: (DomainId, i32),
    s: AssignmentsView,
    assignment: spec_fn(DomainId) -> int,
)
    requires
        s.is_valid_domain(term.0),
        within(assignment, s),
    ensures
        term_lower_bound(term, s, s.trail.len()) <= term.1 * assignment(term.0) <= term_upper_bound(
            term,
            s,
            s.trail.len(),
        ),
{
    let value = assignment(term.0);
    let a = term.1 as int;
    let lower = s.lower_bound(term.0);
    let upper = s.upper_bound(term.0);
    assert(s.contains(term.0, value));
    assert(lower <= value <= upper);
    if a < 0 {
        assert(a * upper <= a * value <= a * lower) by (nonlinear_arith)
            requires
                a < 0,
                lower <= value <= upper,
        ;
    } else {
        assert(a * lower <= a * value <= a * upper) by (nonlinear_arith)
            requires
                a >= 0,
                lower <= value <= upper,
        ;
    }
}

/// The value of a sum lies between the sums of the least and of the
/// greatest values of its terms; and it exceeds the sum of the least values
/// by at least as much as any one term exceeds its own least value.
pub proof fn lemma_sum_within_bounds(
    terms: Seq<(DomainId, i32)>,
    s: AssignmentsView,
    assignment: spec_fn(DomainId) -> int,
)
    requires
        terms_valid(terms, s),
        within(assignment, s),
    ensures
        lower_bound_sum(terms, s, s.trail.len()) <= evaluate(terms, assignment) <= upper_bound_sum(
            terms,
            s,
            s.trail.len(),
        ),
        forall|i: int|
            0 <= i < terms.len() ==> evaluate(terms, assignment) - lower_bound_sum(
                terms,
                s,
                s.trail.len(),
            ) >= (#[trigger] terms[i]).1 * assignment(terms[i].0) - term_lower_bound(
                terms[i],
                s,
                s.trail.len(),
            ),
    decreases terms.len(),
{
    if terms.len() > 0 {
        let rest = terms.drop_last();
        let last = terms.last();
        assert(terms_valid(rest, s)) by {
            assert forall|i: int| 0 <= i < rest.len() implies s.is_valid_domain(
                (#[trigger] rest[i]).0,
            ) by {
                assert(s.is_valid_domain(terms[i].0));
            }
        }
        assert(s.is_valid_domain(terms[terms.len() - 1].0));
        lemma_sum_within_bounds(rest, s, assignment);
        lemma_term_within_bounds(last, s, assignment);
        assert forall|i: int| 0 <= i < terms.len() implies evaluate(terms, assignment)
            - lower_bound_sum(terms, s, s.trail.len()) >= (#[trigger] terms[i]).1 * assignment(
            terms[i].0,
        ) - term_lower_bound(terms[i], s, s.trail.len()) by {
            if i < rest.len() {
                assert(rest[i] == terms[i]);
            }
        }
    }
}

/// Where every variable has a value between the bounds that it had after
/// the first `n` trail entries, the value of a sum lies between the sums of
/// the least and of the greatest values that its terms had then.
pub proof fn lemma_sum_within_bounds_at(
    terms: Seq<(DomainId, i32)>,
    s: AssignmentsView,
    n: nat,
    assignment: spec_fn(DomainId) -> int,
)
    requires
        forall|i: int|
            0 <= i < terms.len() ==> s.lower_bound_at((#[trigger] terms[i]).0, n) <= assignment(
                terms[i].0,
            ) <= s.upper_bound_at(terms[i].0, n),
    ensures
        lower_bound_sum(terms, s, n) <= evaluate(terms, assignment) <= upper_bound_sum(terms, s, n),
    decreases terms.len(),
{
    if terms.len() > 0 {
        let rest = terms.drop_last();
        let last = terms.last();
        assert forall|i: int| 0 <= i < rest.len() implies s.lower_bound_at(
            (#[trigger] rest[i]).0,
            n,
        ) <= assignment(rest[i].0) <= s.upper_bound_at(rest[i].0, n) by {
            assert(rest[i] == terms[i]);
        }
        lemma_sum_within_bounds_at(rest, s, n, assignment);
        let value = assignment(last.0);
        let a = last.1 as int;
        let lower = s.lower_bound_at(last.0, n);
        let upper = s.upper_bound_at(last.0, n);
        assert(terms[terms.len() - 1] == last);
        assert(lower <= value <= upper);
        if a < 0 {
            assert(a * upper <= a * value <= a * lower) by (nonlinear_arith)
                requires
                    a < 0,
                    lower <= value <= upper,
            ;
        } else {
            assert(a * lower <= a * value <= a * upper) by (nonlinear_arith)
                requires
                    a >= 0,
                    lower <= value <= upper,
            ;
        }
    }
}

/// For a positive `a`: from `a * v <= r` follows `v <= floor(r / a)`, and
/// from `a * v >= r` follows `v >= ceil(r / a)`.
pub proof fn lemma_divide_by_positive(a: int, v: int, r: int)
    requires
        a > 0,
    ensures
        a * v <= r ==> v <= div_floor(r, a),
        a * v >= r ==> v >= div_ceil(r, a),
{
    lemma_div_floor_bounds(r, a);
    lemma_div_ceil_bounds(r, a);
    let low = div_floor(r, a);
    let high = div_ceil(r, a);
    if a * v <= r {
        assert(v <= low) by (nonlinear_arith)
            requires
                a > 0,
                a * v <= r,
                r < a * low + a,
        ;
    }
    if a * v >= r {
        assert(v >= high) by (nonlinear_arith)
            requires
                a > 0,
                a * v >= r,
                a * high - a < r,
        ;
    }
}

/// For a negative `a`: from `a * v <= r` follows `v >= ceil(r / a)`, and
/// from `a * v >= r` follows `v <= floor(r / a)`.
pub proof fn lemma_divide_by_negative(a: int, v: int, r: int)
    requires
        a < 0,
    ensures
        a * v <= r ==> v >= div_ceil(r, a),
        a * v >= r ==> v <= div_floor(r, a),
{
    lemma_div_floor_bounds(r, a);
    lemma_div_ceil_bounds(r, a);
    let low = div_floor(r, a);
    let high = div_ceil(r, a);
    if a * v <= r {
        assert(v >= high) by (nonlinear_arith)
            requires
                a < 0,
                a * v <= r,
                a * high - a > r,
        ;
    }
    if a * v >= r {
        assert(v <= low) by (nonlinear_arith)
            requires
                a < 0,
                a * v >= r,
                r > a * low + a,
        ;
    }
}

/// The same as `lemma_tighten_upper_bound_keeps`, for a bound that may lie
/// outside `i32`.
pub proof fn lemma_tighten_upper_bound_to_keeps(
    s: AssignmentsView,
    x: DomainId,
    value: int,
    reason: Option<ReasonRef>,
    assignment: spec_fn(DomainId) -> int,
)
    requires
        s.wf(),
        s.is_valid_domain(x),
        within(assignment, s),
        assignment(x) <= value,
    ensures
        tighten_upper_bound_to(s, x, value, reason).1,
        within(assignment, tighten_upper_bound_to(s, x, value, reason).0),
{
    assert(s.contains(x, assignment(x)));
    if i32::MIN <= value <= i32::MAX {
        lemma_tighten_upper_bound_keeps(s, x, value as i32, reason, assignment);
    }
}

/// The same as `lemma_tighten_lower_bound_keeps`, for a bound that may lie
/// outside `i32`.
pub proof fn lemma_tighten_lower_bound_to_keeps(
    s: AssignmentsView,
    x: DomainId,
    value: int,
    reason: Option<ReasonRef>,
    assignment: spec_fn(DomainId) -> int,
)
    requires
        s.wf(),
        s.is_valid_domain(x),
        within(assignment, s),
        assignment(x) >= value,
    ensures
        tighten_lower_bound_to(s, x, value, reason).1,
        within(assignment, tighten_lower_bound_to(s, x, value, reason).0),
{
    assert(s.contains(x, assignment(x)));
    if i32::MIN <= value <= i32::MAX {
        lemma_tighten_lower_bound_keeps(s, x, value as i32, reason, assignment);
    }
}

} // verus!
