//! The left-hand side of a linear inequality as a mathematical value: a
//! sequence of terms `(variable, coefficient)`, and what it sums to.

use vstd::prelude::*;
use vstd::seq_lib::commutative_foldl;
use vstd::seq_lib::lemma_fold_left_permutation;
use vstd::seq_lib::to_multiset_contains;
use vstd::set_lib::lemma_int_range;
use vstd::set_lib::lemma_len_subset;
use vstd::set_lib::set_int_range;
use crate::basic_types::domain_id::DomainId;
use crate::engine::assignments_view::AssignmentsView;

verus! {

/// No variable occurs twice.
pub open spec fn distinct_variables(terms: Seq<(DomainId, i32)>) -> bool {
    forall|i: int, j: int|
        0 <= i < j < terms.len() ==> (#[trigger] terms[i]).0 != (#[trigger] terms[j]).0
}

/// No coefficient is zero and no variable occurs twice.
pub open spec fn terms_wf(terms: Seq<(DomainId, i32)>) -> bool {
    &&& forall|i: int| 0 <= i < terms.len() ==> (#[trigger] terms[i]).1 != 0
    &&& distinct_variables(terms)
}

/// Every variable of the terms is one of the store.
pub open spec fn terms_valid(terms: Seq<(DomainId, i32)>, s: AssignmentsView) -> bool {
    forall|i: int| 0 <= i < terms.len() ==> s.is_valid_domain((#[trigger] terms[i]).0)
}

/// Whether `x` occurs among the terms.
pub open spec fn mentions(terms: Seq<(DomainId, i32)>, x: DomainId) -> bool {
    exists|i: int| 0 <= i < terms.len() && (#[trigger] terms[i]).0 == x
}

/// The coefficient of `x`: the sum of the coefficients of its terms, so 0
/// where it has none.
pub open spec fn coefficient(terms: Seq<(DomainId, i32)>, x: DomainId) -> int
    decreases terms.len(),
{
    if terms.len() == 0 {
        0
    } else {
        coefficient(terms.drop_last(), x) + if terms.last().0 == x {
            terms.last().1 as int
        } else {
            0
        }
    }
}

/// The value of the sum where every variable `x` has the value
/// `assignment(x)`.
pub open spec fn evaluate(terms: Seq<(DomainId, i32)>, assignment: spec_fn(DomainId) -> int) -> int
    decreases terms.len(),
{
    if terms.len() == 0 {
        0
    } else {
        evaluate(terms.drop_last(), assignment) + terms.last().1 * assignment(terms.last().0)
    }
}

/// The least value of a term after the first `n` trail entries.
pub open spec fn term_lower_bound(term: (DomainId, i32), s: AssignmentsView, n: nat) -> int {
    if term.1 < 0 {
        term.1 * s.upper_bound_at(term.0, n)
    } else {
        term.1 * s.lower_bound_at(term.0, n)
    }
}

/// The greatest value of a term after the first `n` trail entries.
pub open spec fn term_upper_bound(term: (DomainId, i32), s: AssignmentsView, n: nat) -> int {
    if term.1 < 0 {
        term.1 * s.lower_bound_at(term.0, n)
    } else {
        term.1 * s.upper_bound_at(term.0, n)
    }
}

/// The sum of the terms' least values after the first `n` trail entries.
pub open spec fn lower_bound_sum(terms: Seq<(DomainId, i32)>, s: AssignmentsView, n: nat) -> int
    decreases terms.len(),
{
    if terms.len() == 0 {
        0
    } else {
        lower_bound_sum(terms.drop_last(), s, n) + term_lower_bound(terms.last(), s, n)
    }
}

/// The sum of the terms' greatest values after the first `n` trail entries.
pub open spec fn upper_bound_sum(terms: Seq<(DomainId, i32)>, s: AssignmentsView, n: nat) -> int
    decreases terms.len(),
{
    if terms.len() == 0 {
        0
    } else {
        upper_bound_sum(terms.drop_last(), s, n) + term_upper_bound(terms.last(), s, n)
    }
}

/// Every term's least value is an `i32`.
pub open spec fn lower_bounds_fit(terms: Seq<(DomainId, i32)>, s: AssignmentsView, n: nat) -> bool {
    forall|i: int|
        0 <= i < terms.len() ==> i32::MIN <= #[trigger] term_lower_bound(terms[i], s, n)
            <= i32::MAX
}

/// Every term's greatest value is an `i32`.
pub open spec fn upper_bounds_fit(terms: Seq<(DomainId, i32)>, s: AssignmentsView, n: nat) -> bool {
    forall|i: int|
        0 <= i < terms.len() ==> i32::MIN <= #[trigger] term_upper_bound(terms[i], s, n)
            <= i32::MAX
}

/// Terms over distinct variables of a store are no more than its variables.
pub proof fn lemma_distinct_variables_bound(terms: Seq<(DomainId, i32)>, s: AssignmentsView)
    requires
        terms_wf(terms),
        terms_valid(terms, s),
    ensures
        terms.len() <= s.num_domains(),
{
    let ids = terms.map_values(|t: (DomainId, i32)| t.0.id as int);
    assert forall|i: int, j: int| 0 <= i < ids.len() && 0 <= j < ids.len() && i != j implies ids[i]
        != ids[j] by {
        if i < j {
            assert(terms[i].0 != terms[j].0);
        } else {
            assert(terms[j].0 != terms[i].0);
        }
    }
    ids.unique_seq_to_set();
    let range = set_int_range(0, s.num_domains() as int);
    lemma_int_range(0, s.num_domains() as int);
    assert forall|v: int| ids.to_set().contains(v) implies range.contains(v) by {
        let i = choose|i: int| 0 <= i < ids.len() && ids[i] == v;
        assert(s.is_valid_domain(terms[i].0));
    }
    lemma_len_subset(ids.to_set(), range);
}

/// A sum of terms whose least values fit `i32` lies within the term count
/// times the `i32` range.
pub proof fn lemma_lower_bound_sum_range(terms: Seq<(DomainId, i32)>, s: AssignmentsView, n: nat)
    requires
        lower_bounds_fit(terms, s, n),
    ensures
        i32::MIN * terms.len() <= lower_bound_sum(terms, s, n) <= i32::MAX * terms.len(),
    decreases terms.len(),
{
    if terms.len() > 0 {
        assert forall|i: int| 0 <= i < terms.drop_last().len() implies i32::MIN
            <= #[trigger] term_lower_bound(terms.drop_last()[i], s, n) <= i32::MAX by {
            assert(terms.drop_last()[i] == terms[i]);
        }
        lemma_lower_bound_sum_range(terms.drop_last(), s, n);
        assert(i32::MIN <= term_lower_bound(terms[terms.len() - 1], s, n) <= i32::MAX);
    }
}

/// The same for the greatest values.
pub proof fn lemma_upper_bound_sum_range(terms: Seq<(DomainId, i32)>, s: AssignmentsView, n: nat)
    requires
        upper_bounds_fit(terms, s, n),
    ensures
        i32::MIN * terms.len() <= upper_bound_sum(terms, s, n) <= i32::MAX * terms.len(),
    decreases terms.len(),
{
    if terms.len() > 0 {
        assert forall|i: int| 0 <= i < terms.drop_last().len() implies i32::MIN
            <= #[trigger] term_upper_bound(terms.drop_last()[i], s, n) <= i32::MAX by {
            assert(terms.drop_last()[i] == terms[i]);
        }
        lemma_upper_bound_sum_range(terms.drop_last(), s, n);
        assert(i32::MIN <= term_upper_bound(terms[terms.len() - 1], s, n) <= i32::MAX);
    }
}

/// A variable that the terms do not mention has the coefficient 0.
pub proof fn lemma_coefficient_unmentioned(terms: Seq<(DomainId, i32)>, x: DomainId)
    requires
        !mentions(terms, x),
    ensures
        coefficient(terms, x) == 0,
    decreases terms.len(),
{
    if terms.len() > 0 {
        assert(terms[terms.len() - 1].0 != x);
        assert forall|i: int| 0 <= i < terms.drop_last().len() implies (
        #[trigger] terms.drop_last()[i]).0 != x by {
            assert(terms[i].0 != x);
        }
        lemma_coefficient_unmentioned(terms.drop_last(), x);
    }
}

/// Among terms over distinct variables, the coefficient of a variable is
/// the one written in its term.
pub proof fn lemma_coefficient_of_term(terms: Seq<(DomainId, i32)>, i: int)
    requires
        distinct_variables(terms),
        0 <= i < terms.len(),
    ensures
        coefficient(terms, terms[i].0) == terms[i].1,
    decreases terms.len(),
{
    let x = terms[i].0;
    let rest = terms.drop_last();
    if i == terms.len() - 1 {
        assert forall|j: int| 0 <= j < rest.len() implies (#[trigger] rest[j]).0 != x by {
            assert(terms[j].0 != terms[i].0);
        }
        lemma_coefficient_unmentioned(rest, x);
    } else {
        assert(terms[i].0 != terms[terms.len() - 1].0);
        assert(rest[i] == terms[i]);
        assert(distinct_variables(rest)) by {
            assert forall|k: int, j: int| 0 <= k < j < rest.len() implies (#[trigger] rest[k]).0 != (
            #[trigger] rest[j]).0 by {
                assert(terms[k].0 != terms[j].0);
            }
        }
        lemma_coefficient_of_term(rest, i);
    }
}

/// The assignment that gives `x` the value 1 and every other variable 0.
pub open spec fn indicator(x: DomainId) -> spec_fn(DomainId) -> int {
    |y: DomainId|
        if y == x {
            1int
        } else {
            0int
        }
}

/// The coefficient of `x` is the value of the sum at the indicator of `x`.
pub proof fn lemma_coefficient_is_evaluation(terms: Seq<(DomainId, i32)>, x: DomainId)
    ensures
        coefficient(terms, x) == evaluate(terms, indicator(x)),
    decreases terms.len(),
{
    if terms.len() > 0 {
        lemma_coefficient_is_evaluation(terms.drop_last(), x);
        let last = terms.last();
        assert(indicator(x)(last.0) == if last.0 == x {
            1int
        } else {
            0int
        });
        assert(last.1 * 1 == last.1);
        assert(last.1 * 0 == 0);
    }
}

/// Replacing the coefficient of one term moves the value of the sum by the
/// difference times the value of that term's variable.
pub proof fn lemma_evaluate_update(
    terms: Seq<(DomainId, i32)>,
    p: int,
    coefficient: i32,
    assignment: spec_fn(DomainId) -> int,
)
    requires
        0 <= p < terms.len(),
    ensures
        evaluate(terms.update(p, (terms[p].0, coefficient)), assignment) == evaluate(
            terms,
            assignment,
        ) + (coefficient - terms[p].1) * assignment(terms[p].0),
    decreases terms.len(),
{
    let updated = terms.update(p, (terms[p].0, coefficient));
    let value = assignment(terms[p].0);
    if p == terms.len() - 1 {
        assert(updated.drop_last() =~= terms.drop_last());
        assert(coefficient * value == terms[p].1 * value + (coefficient - terms[p].1) * value)
            by (nonlinear_arith);
    } else {
        assert(updated.drop_last() =~= terms.drop_last().update(p, (terms[p].0, coefficient)));
        lemma_evaluate_update(terms.drop_last(), p, coefficient, assignment);
    }
}

/// Multiplying every coefficient by `factor` multiplies the value of the
/// sum by it.
pub proof fn lemma_evaluate_scaled(
    terms: Seq<(DomainId, i32)>,
    scaled: Seq<(DomainId, i32)>,
    factor: int,
    assignment: spec_fn(DomainId) -> int,
)
    requires
        terms.len() == scaled.len(),
        forall|k: int|
            0 <= k < terms.len() ==> (#[trigger] scaled[k]).0 == terms[k].0 && scaled[k].1 == factor
                * terms[k].1,
    ensures
        evaluate(scaled, assignment) == factor * evaluate(terms, assignment),
    decreases terms.len(),
{
    if terms.len() == 0 {
        assert(factor * 0 == 0);
    } else {
        let rest = terms.drop_last();
        let scaled_rest = scaled.drop_last();
        assert forall|k: int| 0 <= k < rest.len() implies (#[trigger] scaled_rest[k]).0 == rest[k].0
            && scaled_rest[k].1 == factor * rest[k].1 by {
            assert(scaled[k].0 == terms[k].0);
        }
        lemma_evaluate_scaled(rest, scaled_rest, factor, assignment);
        let last = terms.last();
        assert(scaled[terms.len() - 1].0 == last.0);
        let value = assignment(last.0);
        let sum = evaluate(rest, assignment);
        assert((factor * last.1) * value + factor * sum == factor * (sum + last.1 * value))
            by (nonlinear_arith);
    }
}

/// The step of the sum, as a fold.
pub open spec fn add_term(assignment: spec_fn(DomainId) -> int) -> spec_fn(int, (DomainId, i32)) -> int {
    |sum: int, term: (DomainId, i32)| sum + term.1 * assignment(term.0)
}

proof fn lemma_evaluate_is_fold(terms: Seq<(DomainId, i32)>, assignment: spec_fn(DomainId) -> int)
    ensures
        evaluate(terms, assignment) == terms.fold_left(0int, add_term(assignment)),
    decreases terms.len(),
{
    if terms.len() > 0 {
        lemma_evaluate_is_fold(terms.drop_last(), assignment);
    }
}

/// The value of the sum does not depend on the order of the terms.
pub proof fn lemma_evaluate_permutation(
    terms: Seq<(DomainId, i32)>,
    other: Seq<(DomainId, i32)>,
    assignment: spec_fn(DomainId) -> int,
)
    requires
        terms.to_multiset() == other.to_multiset(),
    ensures
        evaluate(terms, assignment) == evaluate(other, assignment),
{
    let f = add_term(assignment);
    assert(commutative_foldl(f)) by {
        assert forall|x: (DomainId, i32), y: (DomainId, i32), v: int| #[trigger]
            f(f(v, x), y) == f(f(v, y), x) by {}
    }
    lemma_evaluate_is_fold(terms, assignment);
    lemma_evaluate_is_fold(other, assignment);
    lemma_fold_left_permutation(terms, other, f, 0int);
}

/// Reordering well-formed terms leaves them well-formed.
pub proof fn lemma_terms_wf_permutation(terms: Seq<(DomainId, i32)>, other: Seq<(DomainId, i32)>)
    requires
        terms_wf(terms),
        terms.to_multiset() == other.to_multiset(),
    ensures
        terms_wf(other),
        forall|x: DomainId| mentions(terms, x) <==> mentions(other, x),
{
    assert forall|i: int| 0 <= i < other.len() implies terms.contains(#[trigger] other[i]) by {
        assert(other.contains(other[i]));
        to_multiset_contains(other, other[i]);
        to_multiset_contains(terms, other[i]);
    }
    assert forall|i: int| 0 <= i < terms.len() implies other.contains(#[trigger] terms[i]) by {
        assert(terms.contains(terms[i]));
        to_multiset_contains(other, terms[i]);
        to_multiset_contains(terms, terms[i]);
    }
    assert(terms.no_duplicates()) by {
        assert forall|i: int, j: int| 0 <= i < terms.len() && 0 <= j < terms.len() && i != j implies terms[i]
            != terms[j] by {
            if i < j {
                assert(terms[i].0 != terms[j].0);
            } else {
                assert(terms[j].0 != terms[i].0);
            }
        }
    }
    terms.lemma_multiset_has_no_duplicates();
    other.lemma_multiset_has_no_duplicates_conv();
    assert forall|i: int| 0 <= i < other.len() implies (#[trigger] other[i]).1 != 0 by {
        assert(terms.contains(other[i]));
        let k = choose|k: int| 0 <= k < terms.len() && terms[k] == other[i];
        assert(terms[k].1 != 0);
    }
    assert forall|i: int, j: int| 0 <= i < j < other.len() implies (#[trigger] other[i]).0 != (
    #[trigger] other[j]).0 by {
        assert(terms.contains(other[i]));
        assert(terms.contains(other[j]));
        let a = choose|k: int| 0 <= k < terms.len() && terms[k] == other[i];
        let b = choose|k: int| 0 <= k < terms.len() && terms[k] == other[j];
        if other[i].0 == other[j].0 {
            if a < b {
                assert(terms[a].0 != terms[b].0);
            } else if b < a {
                assert(terms[b].0 != terms[a].0);
            }
            assert(other[i] == other[j]);
        }
    }
    assert forall|x: DomainId| mentions(terms, x) <==> mentions(other, x) by {
        if mentions(terms, x) {
            let i = choose|i: int| 0 <= i < terms.len() && (#[trigger] terms[i]).0 == x;
            assert(other.contains(terms[i]));
            let k = choose|k: int| 0 <= k < other.len() && other[k] == terms[i];
            assert(other[k].0 == x);
        }
        if mentions(other, x) {
            let i = choose|i: int| 0 <= i < other.len() && (#[trigger] other[i]).0 == x;
            assert(terms.contains(other[i]));
            let k = choose|k: int| 0 <= k < terms.len() && terms[k] == other[i];
            assert(terms[k].0 == x);
        }
    }
}

/// Two stores in which every term has the same least value give the
/// same sum of least values.
pub proof fn lemma_lower_bound_sum_congruent(
    terms: Seq<(DomainId, i32)>,
    s: AssignmentsView,
    n: nat,
    t: AssignmentsView,
    m: nat,
)
    requires
        forall|k: int|
            0 <= k < terms.len() ==> #[trigger] term_lower_bound(terms[k], s, n) == term_lower_bound(
                terms[k],
                t,
                m,
            ),
    ensures
        lower_bound_sum(terms, s, n) == lower_bound_sum(terms, t, m),
    decreases terms.len(),
{
    if terms.len() > 0 {
        assert forall|k: int| 0 <= k < terms.drop_last().len() implies #[trigger] term_lower_bound(
            terms.drop_last()[k],
            s,
            n,
        ) == term_lower_bound(terms.drop_last()[k], t, m) by {
            assert(terms.drop_last()[k] == terms[k]);
            assert(term_lower_bound(terms[k], s, n) == term_lower_bound(terms[k], t, m));
        }
        lemma_lower_bound_sum_congruent(terms.drop_last(), s, n, t, m);
        assert(term_lower_bound(terms[terms.len() - 1], s, n) == term_lower_bound(
            terms[terms.len() - 1],
            t,
            m,
        ));
    }
}

} // verus!
