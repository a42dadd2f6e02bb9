//! The cut: a non-negative combination of two linear inequalities that
//! cancels one variable, divided by the greatest common divisor of what is
//! left.

use vstd::prelude::*;
use vstd::arithmetic::div_mod::lemma_fundamental_div_mod;
use vstd::arithmetic::div_mod::lemma_fundamental_div_mod_converse;
use vstd::arithmetic::div_mod::lemma_mod_multiples_basic;
use vstd::arithmetic::div_mod::lemma_small_mod;
use vstd::relations::sorted_by;
use vstd::seq_lib::to_multiset_contains;
use crate::basic_types::arithmetic::abs;
use crate::basic_types::arithmetic::div_ceil_i64;
use crate::basic_types::arithmetic::div_floor;
use crate::basic_types::arithmetic::lemma_div_exact;
use crate::basic_types::arithmetic::gcd;
use crate::basic_types::arithmetic::gcd_u64;
use crate::basic_types::arithmetic::lemma_gcd_divides;
use crate::basic_types::arithmetic::lemma_gcd_greatest;
use crate::basic_types::arithmetic::lemma_remainder_shares_divisors;
use crate::basic_types::arithmetic::magnitude;
use crate::basic_types::domain_id::DomainId;
use crate::basic_types::linear_less_or_equal::LinearLessOrEqual;
use crate::basic_types::linear_less_or_equal::LinearLessOrEqualLhs;
use crate::basic_types::linear_less_or_equal::sorted_terms;
use crate::basic_types::linear_less_or_equal::term_order;
use crate::basic_types::linear_terms::coefficient;
use crate::basic_types::linear_terms::distinct_variables;
use crate::basic_types::linear_terms::evaluate;
use crate::basic_types::linear_terms::indicator;
use crate::basic_types::linear_terms::lemma_coefficient_is_evaluation;
use crate::basic_types::linear_terms::lemma_coefficient_of_term;
use crate::basic_types::linear_terms::lemma_coefficient_unmentioned;
use crate::basic_types::linear_terms::lemma_evaluate_permutation;
use crate::basic_types::linear_terms::lemma_evaluate_scaled;
use crate::basic_types::linear_terms::lemma_evaluate_update;
use crate::basic_types::linear_terms::lemma_terms_wf_permutation;
use crate::basic_types::linear_terms::mentions;
use crate::basic_types::linear_terms::terms_wf;

verus! {

/// How a cut ended.
#[derive(Debug)]
pub enum CutResult {
    /// Everything cancelled and what is left, `0 <= rhs`, is true.
    NothingLearned,
    /// Some product or sum on the way was no `i32`.
    Overflow,
    /// Everything cancelled and what is left, `0 <= rhs`, is false.
    Contradiction,
    Success { inequality: LinearLessOrEqual, skip_early_backjump: bool },
}

pub open spec fn fits_i32(value: int) -> bool {
    i32::MIN <= value <= i32::MAX
}

/// The factor of the first inequality: the magnitude of the second one's
/// coefficient of `var`, divided by the greatest common divisor of the two.
pub open spec fn first_multiplier(var: DomainId, c1: &LinearLessOrEqual, c2: &LinearLessOrEqual) -> int {
    abs(coefficient(c2.lhs@, var)) / (gcd(
        abs(coefficient(c1.lhs@, var)) as nat,
        abs(coefficient(c2.lhs@, var)) as nat,
    ) as int)
}

/// The factor of the second inequality.
pub open spec fn second_multiplier(var: DomainId, c1: &LinearLessOrEqual, c2: &LinearLessOrEqual) -> int {
    abs(coefficient(c1.lhs@, var)) / (gcd(
        abs(coefficient(c1.lhs@, var)) as nat,
        abs(coefficient(c2.lhs@, var)) as nat,
    ) as int)
}

/// The coefficient of `x` in the combination, before it is normalised.
pub open spec fn combined_coefficient(
    var: DomainId,
    c1: &LinearLessOrEqual,
    c2: &LinearLessOrEqual,
    x: DomainId,
) -> int {
    first_multiplier(var, c1, c2) * coefficient(c1.lhs@, x) + second_multiplier(var, c1, c2)
        * coefficient(c2.lhs@, x)
}

/// The right-hand side of the combination, before it is normalised.
pub open spec fn combined_rhs(var: DomainId, c1: &LinearLessOrEqual, c2: &LinearLessOrEqual) -> int {
    first_multiplier(var, c1, c2) * c1.rhs + second_multiplier(var, c1, c2) * c2.rhs
}

/// Every product and every sum of the combination is an `i32`.
pub open spec fn cut_in_range(var: DomainId, c1: &LinearLessOrEqual, c2: &LinearLessOrEqual) -> bool {
    &&& forall|x: DomainId|
        fits_i32(first_multiplier(var, c1, c2) * #[trigger] coefficient(c1.lhs@, x))
    &&& forall|x: DomainId|
        fits_i32(second_multiplier(var, c1, c2) * #[trigger] coefficient(c2.lhs@, x))
    &&& forall|x: DomainId| fits_i32(#[trigger] combined_coefficient(var, c1, c2, x))
    &&& fits_i32(first_multiplier(var, c1, c2) * c1.rhs)
    &&& fits_i32(second_multiplier(var, c1, c2) * c2.rhs)
    &&& fits_i32(combined_rhs(var, c1, c2))
}

/// No variable is left in the combination.
pub open spec fn cut_cancels_everything(var: DomainId, c1: &LinearLessOrEqual, c2: &LinearLessOrEqual) -> bool {
    forall|x: DomainId| #[trigger] combined_coefficient(var, c1, c2, x) == 0
}

/// The two inequalities share a variable other than `var`.
pub open spec fn has_clash(var: DomainId, c1: &LinearLessOrEqual, c2: &LinearLessOrEqual) -> bool {
    exists|x: DomainId| x != var && #[trigger] mentions(c1.lhs@, x) && mentions(c2.lhs@, x)
}

/// `d` divides `rhs` and every coefficient.
pub open spec fn divides_all(d: int, terms: Seq<(DomainId, i32)>, rhs: int) -> bool {
    &&& abs(rhs) % d == 0
    &&& forall|i: int| 0 <= i < terms.len() ==> abs((#[trigger] terms[i]).1 as int) % d == 0
}

/// `inequality`, multiplied by `divisor`, is the combination.
pub open spec fn is_combination_divided_by(
    inequality: &LinearLessOrEqual,
    divisor: int,
    var: DomainId,
    c1: &LinearLessOrEqual,
    c2: &LinearLessOrEqual,
) -> bool {
    &&& divisor > 0
    &&& inequality.rhs * divisor == combined_rhs(var, c1, c2)
    &&& forall|x: DomainId|
        coefficient(inequality.lhs@, x) * divisor == #[trigger] combined_coefficient(var, c1, c2, x)
}

/// What `apply_cut` returns, case by case.
pub open spec fn is_cut_of(
    result: CutResult,
    var: DomainId,
    c1: &LinearLessOrEqual,
    c2: &LinearLessOrEqual,
) -> bool {
    match result {
        CutResult::Overflow => !cut_in_range(var, c1, c2),
        CutResult::Contradiction => cut_in_range(var, c1, c2) && cut_cancels_everything(var, c1, c2)
            && combined_rhs(var, c1, c2) < 0,
        CutResult::NothingLearned => cut_in_range(var, c1, c2) && cut_cancels_everything(
            var,
            c1,
            c2,
        ) && combined_rhs(var, c1, c2) >= 0,
        CutResult::Success { inequality, skip_early_backjump } => {
            &&& cut_in_range(var, c1, c2)
            &&& !cut_cancels_everything(var, c1, c2)
            &&& skip_early_backjump == !has_clash(var, c1, c2)
            &&& inequality.wf()
            &&& sorted_by(inequality.lhs@, term_order())
            &&& exists|divisor: int| #[trigger]
                is_combination_divided_by(&inequality, divisor, var, c1, c2)
            &&& forall|d: int| d > 1 ==> !#[trigger] divides_all(d, inequality.lhs@, inequality.rhs as int)
        },
    }
}

proof fn lemma_scaled_product_bounds(factor: int, value: int)
    by (nonlinear_arith)
    requires
        0 <= factor <= 0x8000_0000,
        i32::MIN <= value <= i32::MAX,
    ensures
        -0x4000_0000_0000_0000 <= factor * value <= 0x4000_0000_0000_0000,
{
}

/// A positive number is at least each of its divisors.
proof fn lemma_divisor_at_most(a: int, d: int)
    requires
        a > 0,
        d > 0,
        a % d == 0,
    ensures
        d <= a,
{
    lemma_fundamental_div_mod(a, d);
    let k = a / d;
    assert(d <= a) by (nonlinear_arith)
        requires
            a == d * k,
            a > 0,
            d > 0,
    ;
}

/// A number whose magnitude `d` divides is itself a multiple of `d`.
proof fn lemma_abs_divisible(n: int, d: int)
    requires
        d > 0,
        abs(n) % d == 0,
    ensures
        n % d == 0,
{
    if n < 0 {
        lemma_fundamental_div_mod(-n, d);
        let k = (-n) / d;
        assert(n == (-k) * d + 0) by (nonlinear_arith)
            requires
                -n == d * k,
        ;
        lemma_fundamental_div_mod_converse(n, d, -k, 0);
    }
}

/// Where `d` divides the quotient of `a` by `g`, `d * g` divides `a`.
proof fn lemma_product_divides(a: int, q: int, g: int, d: int)
    requires
        g > 0,
        d > 0,
        a == g * q,
        abs(q) % d == 0,
    ensures
        abs(a) % (d * g) == 0,
        d * g > 0,
{
    lemma_fundamental_div_mod(abs(q), d);
    let k = abs(q) / d;
    assert(d * g > 0) by (nonlinear_arith)
        requires
            g > 0,
            d > 0,
    ;
    assert(abs(a) == k * (d * g)) by (nonlinear_arith)
        requires
            a == g * q,
            abs(q) == d * k,
            g > 0,
            abs(a) == if a < 0 {
                -a
            } else {
                a
            },
            abs(q) == if q < 0 {
                -q
            } else {
                q
            },
    ;
    lemma_mod_multiples_basic(k, d * g);
}

/// The position of the term of `x`.
fn find_variable(terms: &Vec<(DomainId, i32)>, x: DomainId) -> (r: Option<usize>)
    ensures
        r is None <==> !mentions(terms@, x),
        r is Some ==> r->0 < terms@.len() && terms@[r->0 as int].0 == x,
{
    let mut i: usize = 0;
    while i < terms.len()
        invariant
            i <= terms@.len(),
            forall|k: int| 0 <= k < i ==> (#[trigger] terms@[k]).0 != x,
        decreases terms.len() - i,
    {
        if terms[i].0 == x {
            return Some(i);
        }
        i += 1;
    }
    None
}

/// The terms with every coefficient multiplied by `factor`, unless a
/// product is no `i32`.
fn scale_terms(terms: &Vec<(DomainId, i32)>, factor: i64) -> (r: Option<Vec<(DomainId, i32)>>)
    requires
        0 <= factor <= 0x8000_0000,
    ensures
        r is None <==> exists|i: int|
            0 <= i < terms@.len() && !fits_i32(factor * (#[trigger] terms@[i]).1),
        r is Some ==> r->0@.len() == terms@.len() && forall|k: int|
            0 <= k < terms@.len() ==> (#[trigger] r->0@[k]).0 == terms@[k].0 && r->0@[k].1 == factor
                * terms@[k].1,
{
    let mut scaled: Vec<(DomainId, i32)> = Vec::new();
    let mut i: usize = 0;
    while i < terms.len()
        invariant
            0 <= factor <= 0x8000_0000,
            i <= terms@.len(),
            scaled@.len() == i,
            forall|k: int| 0 <= k < i ==> fits_i32(factor * (#[trigger] terms@[k]).1),
            forall|k: int|
                0 <= k < i ==> (#[trigger] scaled@[k]).0 == terms@[k].0 && scaled@[k].1 == factor
                    * terms@[k].1,
        decreases terms.len() - i,
    {
        let term = terms[i];
        proof {
            lemma_scaled_product_bounds(factor as int, term.1 as int);
        }
        let product: i64 = factor * term.1 as i64;
        if product < i32::MIN as i64 || product > i32::MAX as i64 {
            assert(!fits_i32(factor * terms@[i as int].1));
            return None;
        }
        scaled.push((term.0, product as i32));
        i += 1;
    }
    Some(scaled)
}

/// Adds `factor` times `terms` to `acc`, term by term: a term whose
/// variable `acc` holds is added to that term, any other is appended.
/// Returns `None` when a product or a sum is no `i32`, and otherwise whether
/// `acc` held a variable of `terms` other than `var`.
fn add_scaled_terms(
    acc: &mut Vec<(DomainId, i32)>,
    terms: &Vec<(DomainId, i32)>,
    factor: i64,
    var: DomainId,
) -> (r: Option<bool>)
    requires
        distinct_variables(old(acc)@),
        distinct_variables(terms@),
        0 <= factor <= 0x8000_0000,
    ensures
        r is None <==> exists|j: int|
            0 <= j < terms@.len() && !(fits_i32(factor * (#[trigger] terms@[j]).1) && fits_i32(
                coefficient(old(acc)@, terms@[j].0) + factor * terms@[j].1,
            )),
        r is Some ==> distinct_variables(final(acc)@),
        r is Some ==> forall|assignment: spec_fn(DomainId) -> int| #[trigger]
            evaluate(final(acc)@, assignment) == evaluate(old(acc)@, assignment) + factor
                * evaluate(terms@, assignment),
        r is Some ==> r->0 == exists|j: int|
            0 <= j < terms@.len() && (#[trigger] terms@[j]).0 != var && mentions(
                old(acc)@,
                terms@[j].0,
            ),
{
    let ghost start = acc@;
    let mut clash = false;
    let mut j: usize = 0;
    while j < terms.len()
        invariant
            start == old(acc)@,
            distinct_variables(start),
            distinct_variables(terms@),
            distinct_variables(acc@),
            0 <= factor <= 0x8000_0000,
            j <= terms@.len(),
            forall|assignment: spec_fn(DomainId) -> int| #[trigger]
                evaluate(acc@, assignment) == evaluate(start, assignment) + factor * evaluate(
                    terms@.take(j as int),
                    assignment,
                ),
            forall|x: DomainId| #[trigger]
                mentions(acc@, x) <==> mentions(start, x) || mentions(terms@.take(j as int), x),
            forall|k: int|
                0 <= k < j ==> fits_i32(factor * (#[trigger] terms@[k]).1) && fits_i32(
                    coefficient(start, terms@[k].0) + factor * terms@[k].1,
                ),
            clash == exists|k: int|
                0 <= k < j && (#[trigger] terms@[k]).0 != var && mentions(start, terms@[k].0),
        decreases terms.len() - j,
    {
        let term = terms[j];
        let ghost before = acc@;
        let ghost seen = terms@.take(j as int);
        let ghost next = terms@.take(j + 1);
        proof {
            lemma_scaled_product_bounds(factor as int, term.1 as int);
            assert(next.drop_last() =~= seen);
            assert(next.last() == term);
            assert(!mentions(seen, term.0)) by {
                if mentions(seen, term.0) {
                    let k = choose|k: int| 0 <= k < seen.len() && (#[trigger] seen[k]).0 == term.0;
                    assert(terms@[k].0 != terms@[j as int].0);
                }
            }
            lemma_coefficient_unmentioned(seen, term.0);
            lemma_coefficient_is_evaluation(seen, term.0);
            lemma_coefficient_is_evaluation(before, term.0);
            lemma_coefficient_is_evaluation(start, term.0);
            assert(evaluate(before, indicator(term.0)) == evaluate(start, indicator(term.0)) + factor
                * evaluate(seen, indicator(term.0)));
            assert(factor * 0 == 0);
            assert(coefficient(before, term.0) == coefficient(start, term.0));
        }
        let product: i64 = factor * term.1 as i64;
        if product < i32::MIN as i64 || product > i32::MAX as i64 {
            assert(!fits_i32(factor * terms@[j as int].1));
            return None;
        }
        let position = find_variable(acc, term.0);
        match position {
            Some(p) => {
                proof {
                    lemma_coefficient_of_term(before, p as int);
                }
                let current = acc[p].1;
                let sum: i64 = current as i64 + product;
                if sum < i32::MIN as i64 || sum > i32::MAX as i64 {
                    assert(!fits_i32(coefficient(start, terms@[j as int].0) + factor * terms@[j as int].1));
                    return None;
                }
                acc.set(p, (term.0, sum as i32));
                if term.0 != var {
                    clash = true;
                }
                proof {
                    assert(acc@ == before.update(p as int, (before[p as int].0, sum as i32)));
                    assert(mentions(start, term.0));
                    assert forall|assignment: spec_fn(DomainId) -> int| #[trigger]
                        evaluate(acc@, assignment) == evaluate(start, assignment) + factor * evaluate(
                            next,
                            assignment,
                        ) by {
                        lemma_evaluate_update(before, p as int, sum as i32, assignment);
                        let value = assignment(term.0);
                        let e = evaluate(seen, assignment);
                        assert(evaluate(next, assignment) == e + term.1 * value);
                        assert((sum as i32 - before[p as int].1) * value == (factor * term.1) * value);
                        assert(factor * (e + term.1 * value) == factor * e + (factor * term.1) * value)
                            by (nonlinear_arith);
                    }
                    assert forall|x: DomainId| #[trigger]
                        mentions(acc@, x) <==> mentions(start, x) || mentions(next, x) by {
                        if mentions(acc@, x) {
                            let k = choose|k: int| 0 <= k < acc@.len() && (#[trigger] acc@[k]).0 == x;
                            assert(before[k].0 == x);
                            assert(mentions(before, x));
                            if mentions(seen, x) {
                                let m = choose|m: int| 0 <= m < seen.len() && (#[trigger] seen[m]).0 == x;
                                assert(next[m].0 == x);
                            }
                        }
                        if mentions(start, x) || mentions(seen, x) {
                            assert(mentions(before, x));
                            let k = choose|k: int| 0 <= k < before.len() && (#[trigger] before[k]).0
                                == x;
                            assert(acc@[k].0 == x);
                        }
                        if mentions(next, x) && !mentions(seen, x) && !mentions(start, x) {
                            let m = choose|m: int| 0 <= m < next.len() && (#[trigger] next[m]).0 == x;
                            if m < j {
                                assert(seen[m].0 == x);
                            }
                        }
                    }
                    assert(distinct_variables(acc@)) by {
                        assert forall|a: int, b: int| 0 <= a < b < acc@.len() implies (
                        #[trigger] acc@[a]).0 != (#[trigger] acc@[b]).0 by {
                            assert(before[a].0 != before[b].0);
                        }
                    }
                }
            },
            None => {
                proof {
                    assert(!mentions(start, term.0));
                    lemma_coefficient_unmentioned(start, term.0);
                }
                acc.push((term.0, product as i32));
                proof {
                    assert(acc@.drop_last() =~= before);
                    assert(acc@.last() == (term.0, product as i32));
                    assert forall|assignment: spec_fn(DomainId) -> int| #[trigger]
                        evaluate(acc@, assignment) == evaluate(start, assignment) + factor * evaluate(
                            next,
                            assignment,
                        ) by {
                        let value = assignment(term.0);
                        let e = evaluate(seen, assignment);
                        assert(evaluate(acc@, assignment) == evaluate(before, assignment) + (
                        product as i32) * value);
                        assert(evaluate(next, assignment) == e + term.1 * value);
                        assert(factor * (e + term.1 * value) == factor * e + (factor * term.1) * value)
                            by (nonlinear_arith);
                    }
                    assert forall|x: DomainId| #[trigger]
                        mentions(acc@, x) <==> mentions(start, x) || mentions(next, x) by {
                        if mentions(acc@, x) {
                            let k = choose|k: int| 0 <= k < acc@.len() && (#[trigger] acc@[k]).0 == x;
                            if k < before.len() {
                                assert(before[k].0 == x);
                                assert(mentions(before, x));
                                if mentions(seen, x) {
                                    let m = choose|m: int| 0 <= m < seen.len() && (#[trigger] seen[m]).0
                                        == x;
                                    assert(next[m].0 == x);
                                }
                            } else {
                                assert(next[j as int].0 == x);
                            }
                        }
                        if mentions(start, x) || mentions(seen, x) {
                            assert(mentions(before, x));
                            let k = choose|k: int| 0 <= k < before.len() && (#[trigger] before[k]).0
                                == x;
                            assert(acc@[k].0 == x);
                        }
                        if mentions(next, x) && !mentions(seen, x) {
                            let m = choose|m: int| 0 <= m < next.len() && (#[trigger] next[m]).0 == x;
                            if m < j {
                                assert(seen[m].0 == x);
                            } else {
                                assert(acc@[before.len() as int].0 == x);
                            }
                        }
                    }
                    assert(distinct_variables(acc@)) by {
                        assert forall|a: int, b: int| 0 <= a < b < acc@.len() implies (
                        #[trigger] acc@[a]).0 != (#[trigger] acc@[b]).0 by {
                            if b < before.len() {
                                assert(before[a].0 != before[b].0);
                            } else {
                                assert(before[a].0 != term.0);
                            }
                        }
                    }
                }
            },
        }
        j += 1;
    }
    proof {
        assert(terms@.take(terms@.len() as int) =~= terms@);
    }
    Some(clash)
}

/// The terms whose coefficient is not zero, in their order.
fn drop_zero_terms(acc: &Vec<(DomainId, i32)>) -> (r: Vec<(DomainId, i32)>)
    requires
        distinct_variables(acc@),
    ensures
        terms_wf(r@),
        forall|assignment: spec_fn(DomainId) -> int| #[trigger]
            evaluate(r@, assignment) == evaluate(acc@, assignment),
{
    let mut kept: Vec<(DomainId, i32)> = Vec::new();
    let mut k: usize = 0;
    while k < acc.len()
        invariant
            distinct_variables(acc@),
            k <= acc@.len(),
            terms_wf(kept@),
            forall|i: int| 0 <= i < kept@.len() ==> mentions(acc@.take(k as int), (#[trigger] kept@[i]).0),
            forall|assignment: spec_fn(DomainId) -> int| #[trigger]
                evaluate(kept@, assignment) == evaluate(acc@.take(k as int), assignment),
        decreases acc.len() - k,
    {
        let term = acc[k];
        let ghost before = kept@;
        let ghost seen = acc@.take(k as int);
        let ghost next = acc@.take(k + 1);
        proof {
            assert(next.drop_last() =~= seen);
            assert(next.last() == term);
        }
        if term.1 != 0 {
            kept.push(term);
            proof {
                assert(kept@.drop_last() =~= before);
                assert(kept@.last() == term);
                assert forall|assignment: spec_fn(DomainId) -> int| #[trigger]
                    evaluate(kept@, assignment) == evaluate(next, assignment) by {
                    assert(evaluate(kept@, assignment) == evaluate(before, assignment) + term.1
                        * assignment(term.0));
                    assert(evaluate(next, assignment) == evaluate(seen, assignment) + term.1 * assignment(
                        term.0,
                    ));
                }
                assert forall|a: int, b: int| 0 <= a < b < kept@.len() implies (#[trigger] kept@[a]).0
                    != (#[trigger] kept@[b]).0 by {
                    if b < before.len() {
                        assert(before[a].0 != before[b].0);
                    } else {
                        assert(mentions(seen, before[a].0));
                        let m = choose|m: int| 0 <= m < seen.len() && (#[trigger] seen[m]).0
                            == before[a].0;
                        assert(acc@[m].0 != acc@[k as int].0);
                    }
                }
                assert forall|i: int| 0 <= i < kept@.len() implies mentions(
                    next,
                    (#[trigger] kept@[i]).0,
                ) by {
                    if i < before.len() {
                        assert(mentions(seen, before[i].0));
                        let m = choose|m: int| 0 <= m < seen.len() && (#[trigger] seen[m]).0
                            == before[i].0;
                        assert(next[m].0 == before[i].0);
                    } else {
                        assert(next[k as int].0 == term.0);
                    }
                }
            }
        } else {
            proof {
                assert forall|assignment: spec_fn(DomainId) -> int| #[trigger]
                    evaluate(kept@, assignment) == evaluate(next, assignment) by {
                    let value = assignment(term.0);
                    assert(term.1 * value == 0) by (nonlinear_arith)
                        requires
                            term.1 == 0,
                    ;
                }
                assert forall|i: int| 0 <= i < kept@.len() implies mentions(
                    next,
                    (#[trigger] kept@[i]).0,
                ) by {
                    assert(mentions(seen, before[i].0));
                    let m = choose|m: int| 0 <= m < seen.len() && (#[trigger] seen[m]).0 == before[i].0;
                    assert(next[m].0 == before[i].0);
                }
            }
        }
        k += 1;
    }
    proof {
        assert(acc@.take(acc@.len() as int) =~= acc@);
    }
    kept
}

/// The greatest number that divides `rhs` and every coefficient.
fn common_divisor(terms: &Vec<(DomainId, i32)>, rhs: i32) -> (g: u64)
    requires
        terms@.len() > 0,
        terms@[0].1 != 0,
    ensures
        0 < g <= 0x8000_0000,
        divides_all(g as int, terms@, rhs as int),
        forall|d: int| d > 0 && #[trigger] divides_all(d, terms@, rhs as int) ==> (g as int) % d == 0,
{
    let first = magnitude(terms[0].1);
    let mut g = gcd_u64(magnitude(rhs), first);
    proof {
        lemma_gcd_divides(abs(rhs as int) as nat, first as nat);
        lemma_divisor_at_most(first as int, g as int);
        assert forall|d: int| d > 0 && #[trigger] divides_all(d, terms@.take(1), rhs as int) implies (
        g as int) % d == 0 by {
            assert(terms@.take(1)[0] == terms@[0]);
            lemma_gcd_greatest(abs(rhs as int) as nat, first as nat, d as nat);
        }
        assert(divides_all(g as int, terms@.take(1), rhs as int)) by {
            assert forall|i: int| 0 <= i < terms@.take(1).len() implies abs(
                (#[trigger] terms@.take(1)[i]).1 as int,
            ) % (g as int) == 0 by {
                assert(terms@.take(1)[i] == terms@[0]);
            }
        }
    }
    let mut i: usize = 1;
    while i < terms.len()
        invariant
            1 <= i <= terms@.len(),
            0 < g <= 0x8000_0000,
            divides_all(g as int, terms@.take(i as int), rhs as int),
            forall|d: int|
                d > 0 && #[trigger] divides_all(d, terms@.take(i as int), rhs as int) ==> (g as int) % d
                    == 0,
        decreases terms.len() - i,
    {
        let ghost seen = terms@.take(i as int);
        let ghost next = terms@.take(i + 1);
        let ghost previous = g;
        let size = magnitude(terms[i].1);
        g = gcd_u64(g, size);
        proof {
            lemma_gcd_divides(previous as nat, size as nat);
            lemma_divisor_at_most(previous as int, g as int);
            assert(divides_all(g as int, next, rhs as int)) by {
                lemma_remainder_shares_divisors(abs(rhs as int), previous as int, g as int);
                assert forall|k: int| 0 <= k < next.len() implies abs((#[trigger] next[k]).1 as int) % (
                g as int) == 0 by {
                    if k < i {
                        assert(seen[k] == next[k]);
                        assert(abs(seen[k].1 as int) % (previous as int) == 0);
                        lemma_remainder_shares_divisors(
                            abs(next[k].1 as int),
                            previous as int,
                            g as int,
                        );
                    }
                }
            }
            assert forall|d: int| d > 0 && #[trigger] divides_all(d, next, rhs as int) implies (
            g as int) % d == 0 by {
                assert(divides_all(d, seen, rhs as int)) by {
                    assert forall|k: int| 0 <= k < seen.len() implies abs((#[trigger] seen[k]).1 as int)
                        % d == 0 by {
                        assert(seen[k] == next[k]);
                    }
                }
                assert(abs(next[i as int].1 as int) % d == 0);
                lemma_gcd_greatest(previous as nat, size as nat, d as nat);
            }
        }
        i += 1;
    }
    proof {
        assert(terms@.take(terms@.len() as int) =~= terms@);
    }
    g
}

/// The quotient of `value` by a divisor of it.
fn divide_exact(value: i32, g: u64) -> (q: i32)
    requires
        0 < g <= 0x8000_0000,
        abs(value as int) % (g as int) == 0,
    ensures
        value == g * q,
{
    let size = magnitude(value);
    let quotient = size / g;
    proof {
        lemma_fundamental_div_mod(size as int, g as int);
        assert(quotient <= size) by (nonlinear_arith)
            requires
                size == g * quotient,
                g >= 1,
                quotient >= 0,
        ;
        if value < 0 {
            assert(value == g * (-(quotient as int))) by (nonlinear_arith)
                requires
                    -value == g * quotient,
            ;
        }
    }
    if value < 0 {
        (-(quotient as i64)) as i32
    } else {
        quotient as i32
    }
}

/// The terms with every coefficient divided by `g`, which divides them all.
fn divide_terms(terms: &Vec<(DomainId, i32)>, g: u64) -> (r: Vec<(DomainId, i32)>)
    requires
        0 < g <= 0x8000_0000,
        forall|i: int| 0 <= i < terms@.len() ==> abs((#[trigger] terms@[i]).1 as int) % (g as int) == 0,
    ensures
        r@.len() == terms@.len(),
        forall|k: int|
            0 <= k < terms@.len() ==> (#[trigger] terms@[k]).0 == r@[k].0 && terms@[k].1 == g * r@[k].1,
{
    let mut quotients: Vec<(DomainId, i32)> = Vec::new();
    let mut i: usize = 0;
    while i < terms.len()
        invariant
            0 < g <= 0x8000_0000,
            forall|i: int|
                0 <= i < terms@.len() ==> abs((#[trigger] terms@[i]).1 as int) % (g as int) == 0,
            i <= terms@.len(),
            quotients@.len() == i,
            forall|k: int|
                0 <= k < i ==> (#[trigger] terms@[k]).0 == quotients@[k].0 && terms@[k].1 == g
                    * quotients@[k].1,
        decreases terms.len() - i,
    {
        let term = terms[i];
        quotients.push((term.0, divide_exact(term.1, g)));
        i += 1;
    }
    quotients
}

/// The two multiples of the coefficients of the cancelled variable are
/// opposite.
proof fn lemma_multiples_cancel(s1: int, s2: int, g: int, m1: int, m2: int)
    by (nonlinear_arith)
    requires
        abs(s1) == g * m2,
        abs(s2) == g * m1,
        (s1 > 0) != (s2 > 0),
        s1 != 0,
        s2 != 0,
        abs(s1) == if s1 < 0 {
            -s1
        } else {
            s1
        },
        abs(s2) == if s2 < 0 {
            -s2
        } else {
            s2
        },
    ensures
        m1 * s1 + m2 * s2 == 0,
{
}

/// A non-negative combination of two inequalities that hold, divided by a
/// positive number, holds.
proof fn lemma_combination_holds(
    e1: int,
    r1: int,
    e2: int,
    r2: int,
    m1: int,
    m2: int,
    e: int,
    r: int,
    g: int,
)
    by (nonlinear_arith)
    requires
        m1 >= 0,
        m2 >= 0,
        g > 0,
        e * g == m1 * e1 + m2 * e2,
        r * g == m1 * r1 + m2 * r2,
        e1 <= r1,
        e2 <= r2,
    ensures
        e <= r,
{
}

/// A quotient is no larger in magnitude than its dividend.
proof fn lemma_quotient_within(n: int, q: int, g: int)
    by (nonlinear_arith)
    requires
        g > 0,
        n == g * q,
    ensures
        n >= 0 ==> 0 <= q <= n,
        n <= 0 ==> n <= q <= 0,
        n != 0 ==> q != 0,
{
}

/// Cancels `var` between `c1` and `c2`, which hold it with opposite signs:
/// multiplies each by the magnitude of the other's coefficient of `var`,
/// over their greatest common divisor, adds the two, drops what cancelled,
/// and divides by the greatest common divisor of what is left.
pub fn apply_cut(var: DomainId, c1: &LinearLessOrEqual, c2: &LinearLessOrEqual) -> (result: CutResult)
    requires
        c1.wf(),
        c2.wf(),
        mentions(c1.lhs@, var),
        mentions(c2.lhs@, var),
        (coefficient(c1.lhs@, var) > 0) != (coefficient(c2.lhs@, var) > 0),
    ensures
        is_cut_of(result, var, c1, c2),
        result matches CutResult::Success { inequality, .. } ==> !mentions(inequality.lhs@, var)
            && coefficient(inequality.lhs@, var) == 0,
        result matches CutResult::Success { inequality, .. } ==> forall|x: DomainId| #[trigger]
            mentions(inequality.lhs@, x) ==> mentions(c1.lhs@, x) || mentions(c2.lhs@, x),
        result matches CutResult::Success { inequality, .. } ==> forall|
            assignment: spec_fn(DomainId) -> int,
        |
            c1.holds(assignment) && c2.holds(assignment) ==> #[trigger] inequality.holds(assignment),
        result is Contradiction ==> forall|assignment: spec_fn(DomainId) -> int|
            !(#[trigger] c1.holds(assignment) && c2.holds(assignment)),
{
    let scale1 = c1.find_variable_scale(var).unwrap();
    let scale2 = c2.find_variable_scale(var).unwrap();
    proof {
        let i1 = choose|i: int| 0 <= i < c1.lhs@.len() && #[trigger] c1.lhs@[i] == (var, scale1);
        lemma_coefficient_of_term(c1.lhs@, i1);
        let i2 = choose|i: int| 0 <= i < c2.lhs@.len() && #[trigger] c2.lhs@[i] == (var, scale2);
        lemma_coefficient_of_term(c2.lhs@, i2);
    }
    let size1 = magnitude(scale1);
    let size2 = magnitude(scale2);
    let g = gcd_u64(size1, size2);
    proof {
        lemma_gcd_divides(size1 as nat, size2 as nat);
        lemma_fundamental_div_mod(size1 as int, g as int);
        lemma_fundamental_div_mod(size2 as int, g as int);
        lemma_quotient_within(size1 as int, (size1 / g) as int, g as int);
        lemma_quotient_within(size2 as int, (size2 / g) as int, g as int);
    }
    let factor1: i64 = (size2 / g) as i64;
    let factor2: i64 = (size1 / g) as i64;
    assert(factor1 == first_multiplier(var, c1, c2));
    assert(factor2 == second_multiplier(var, c1, c2));
    proof {
        lemma_multiples_cancel(scale1 as int, scale2 as int, g as int, factor1 as int, factor2 as int);
        assert(combined_coefficient(var, c1, c2, var) == 0);
    }

    let scaled = scale_terms(&c1.lhs.0, factor1);
    if scaled.is_none() {
        proof {
            let i = choose|i: int|
                0 <= i < c1.lhs@.len() && !fits_i32(factor1 * (#[trigger] c1.lhs@[i]).1);
            let x = c1.lhs@[i].0;
            lemma_coefficient_of_term(c1.lhs@, i);
            assert(!fits_i32(first_multiplier(var, c1, c2) * coefficient(c1.lhs@, x)));
            let witness = combined_coefficient(var, c1, c2, x);
        }
        return CutResult::Overflow;
    }
    let mut acc = scaled.unwrap();
    let ghost first = acc@;
    proof {
        assert(distinct_variables(first)) by {
            assert forall|a: int, b: int| 0 <= a < b < first.len() implies (#[trigger] first[a]).0 != (
            #[trigger] first[b]).0 by {
                assert(c1.lhs@[a].0 != c1.lhs@[b].0);
            }
        }
        assert forall|x: DomainId| #[trigger]
            coefficient(first, x) == factor1 * coefficient(c1.lhs@, x) by {
            lemma_coefficient_is_evaluation(first, x);
            lemma_coefficient_is_evaluation(c1.lhs@, x);
            lemma_evaluate_scaled(c1.lhs@, first, factor1 as int, indicator(x));
        }
    }
    let clash = add_scaled_terms(&mut acc, &c2.lhs.0, factor2, var);
    if clash.is_none() {
        proof {
            let j = choose|j: int|
                0 <= j < c2.lhs@.len() && !(fits_i32(factor2 * (#[trigger] c2.lhs@[j]).1) && fits_i32(
                    coefficient(first, c2.lhs@[j].0) + factor2 * c2.lhs@[j].1,
                ));
            let x = c2.lhs@[j].0;
            lemma_coefficient_of_term(c2.lhs@, j);
            assert(coefficient(first, x) == factor1 * coefficient(c1.lhs@, x));
            assert(factor2 * c2.lhs@[j].1 == second_multiplier(var, c1, c2) * coefficient(c2.lhs@, x));
            assert(coefficient(first, c2.lhs@[j].0) + factor2 * c2.lhs@[j].1 == combined_coefficient(
                var,
                c1,
                c2,
                x,
            ));
            assert(!(fits_i32(second_multiplier(var, c1, c2) * coefficient(c2.lhs@, x)) && fits_i32(
                combined_coefficient(var, c1, c2, x),
            )));
            assert(!cut_in_range(var, c1, c2));
        }
        return CutResult::Overflow;
    }
    proof {
        lemma_scaled_product_bounds(factor1 as int, c1.rhs as int);
        lemma_scaled_product_bounds(factor2 as int, c2.rhs as int);
    }
    let rhs1: i64 = factor1 * c1.rhs as i64;
    let rhs2: i64 = factor2 * c2.rhs as i64;
    assert(rhs1 == first_multiplier(var, c1, c2) * c1.rhs);
    assert(rhs2 == second_multiplier(var, c1, c2) * c2.rhs);
    if rhs1 < i32::MIN as i64 || rhs1 > i32::MAX as i64 || rhs2 < i32::MIN as i64 || rhs2
        > i32::MAX as i64 {
        return CutResult::Overflow;
    }
    let new_rhs: i64 = rhs1 + rhs2;
    if new_rhs < i32::MIN as i64 || new_rhs > i32::MAX as i64 {
        return CutResult::Overflow;
    }
    assert(new_rhs == combined_rhs(var, c1, c2));

    let kept = drop_zero_terms(&acc);
    proof {
        assert forall|assignment: spec_fn(DomainId) -> int| #[trigger]
            evaluate(kept@, assignment) == factor1 * evaluate(c1.lhs@, assignment) + factor2
                * evaluate(c2.lhs@, assignment) by {
            lemma_evaluate_scaled(c1.lhs@, first, factor1 as int, assignment);
            assert(evaluate(acc@, assignment) == evaluate(first, assignment) + factor2 * evaluate(
                c2.lhs@,
                assignment,
            ));
        }
        assert forall|x: DomainId| #[trigger]
            combined_coefficient(var, c1, c2, x) == coefficient(kept@, x) by {
            lemma_coefficient_is_evaluation(kept@, x);
            lemma_coefficient_is_evaluation(c1.lhs@, x);
            lemma_coefficient_is_evaluation(c2.lhs@, x);
        }
        assert(fits_i32(first_multiplier(var, c1, c2) * c1.rhs));
        assert(fits_i32(second_multiplier(var, c1, c2) * c2.rhs));
        assert(fits_i32(combined_rhs(var, c1, c2)));
        assert forall|x: DomainId|
            fits_i32(first_multiplier(var, c1, c2) * coefficient(c1.lhs@, x)) && fits_i32(
                second_multiplier(var, c1, c2) * coefficient(c2.lhs@, x),
            ) && fits_i32(#[trigger] combined_coefficient(var, c1, c2, x)) by {
            let trigger1 = coefficient(c1.lhs@, x);
            assert(coefficient(first, x) == factor1 * coefficient(c1.lhs@, x));
            let first_product = first_multiplier(var, c1, c2) * coefficient(c1.lhs@, x);
            let second_product = second_multiplier(var, c1, c2) * coefficient(c2.lhs@, x);
            assert(combined_coefficient(var, c1, c2, x) == first_product + second_product);
            if mentions(c1.lhs@, x) {
                let i = choose|i: int| 0 <= i < c1.lhs@.len() && (#[trigger] c1.lhs@[i]).0 == x;
                lemma_coefficient_of_term(c1.lhs@, i);
                assert(first[i].1 == factor1 * c1.lhs@[i].1);
                assert(first_product == first[i].1);
            } else {
                lemma_coefficient_unmentioned(c1.lhs@, x);
                assert(first_product == 0) by (nonlinear_arith)
                    requires
                        first_product == first_multiplier(var, c1, c2) * coefficient(c1.lhs@, x),
                        coefficient(c1.lhs@, x) == 0,
                ;
            }
            if mentions(c2.lhs@, x) {
                let j = choose|j: int| 0 <= j < c2.lhs@.len() && (#[trigger] c2.lhs@[j]).0 == x;
                lemma_coefficient_of_term(c2.lhs@, j);
                assert(fits_i32(factor2 * c2.lhs@[j].1) && fits_i32(
                    coefficient(first, c2.lhs@[j].0) + factor2 * c2.lhs@[j].1,
                ));
                assert(second_product == factor2 * c2.lhs@[j].1);
            } else {
                lemma_coefficient_unmentioned(c2.lhs@, x);
                assert(second_product == 0) by (nonlinear_arith)
                    requires
                        second_product == second_multiplier(var, c1, c2) * coefficient(c2.lhs@, x),
                        coefficient(c2.lhs@, x) == 0,
                ;
            }
        }
        assert forall|x: DomainId|
            fits_i32(first_multiplier(var, c1, c2) * #[trigger] coefficient(c1.lhs@, x)) by {
            let trigger = combined_coefficient(var, c1, c2, x);
        }
        assert forall|x: DomainId|
            fits_i32(second_multiplier(var, c1, c2) * #[trigger] coefficient(c2.lhs@, x)) by {
            let trigger = combined_coefficient(var, c1, c2, x);
        }
        assert(cut_in_range(var, c1, c2));
    }
    if kept.len() == 0 {
        proof {
            assert forall|x: DomainId| #[trigger] combined_coefficient(var, c1, c2, x) == 0 by {
                assert(combined_coefficient(var, c1, c2, x) == coefficient(kept@, x));
            }
            assert forall|assignment: spec_fn(DomainId) -> int|
                new_rhs < 0 implies !(#[trigger] c1.holds(assignment) && c2.holds(assignment)) by {
                let e1 = evaluate(c1.lhs@, assignment);
                let e2 = evaluate(c2.lhs@, assignment);
                assert(evaluate(kept@, assignment) == 0);
                if c1.holds(assignment) && c2.holds(assignment) {
                    lemma_combination_holds(
                        e1,
                        c1.rhs as int,
                        e2,
                        c2.rhs as int,
                        factor1 as int,
                        factor2 as int,
                        0,
                        new_rhs as int,
                        1,
                    );
                }
            }
        }
        return if new_rhs < 0 {
            CutResult::Contradiction
        } else {
            CutResult::NothingLearned
        };
    }
    let divisor = common_divisor(&kept, new_rhs as i32);
    let quotients = divide_terms(&kept, divisor);
    proof {
        lemma_abs_divisible(new_rhs as int, divisor as int);
        lemma_div_exact(new_rhs as int, divisor as int);
        assert(abs(-(new_rhs as int)) == abs(new_rhs as int));
        lemma_abs_divisible(-(new_rhs as int), divisor as int);
        lemma_div_exact(-(new_rhs as int), divisor as int);
        lemma_quotient_within(new_rhs as int, div_floor(new_rhs as int, divisor as int), divisor as int);
        lemma_quotient_within(
            -(new_rhs as int),
            div_floor(-(new_rhs as int), divisor as int),
            divisor as int,
        );
    }
    let final_rhs = div_ceil_i64(new_rhs, divisor as i64) as i32;
    let sorted = sorted_terms(&quotients);
    let inequality = LinearLessOrEqual { lhs: LinearLessOrEqualLhs(sorted), rhs: final_rhs };
    let skip_early_backjump = !clash.unwrap();
    proof {
        assert(combined_coefficient(var, c1, c2, kept@[0].0) != 0) by {
            lemma_coefficient_of_term(kept@, 0);
        }
        assert(terms_wf(quotients@)) by {
            assert forall|i: int| 0 <= i < quotients@.len() implies (#[trigger] quotients@[i]).1
                != 0 by {
                lemma_quotient_within(kept@[i].1 as int, quotients@[i].1 as int, divisor as int);
            }
            assert forall|a: int, b: int| 0 <= a < b < quotients@.len() implies (
            #[trigger] quotients@[a]).0 != (#[trigger] quotients@[b]).0 by {
                assert(kept@[a].0 != kept@[b].0);
            }
        }
        lemma_terms_wf_permutation(quotients@, inequality.lhs@);
        assert forall|assignment: spec_fn(DomainId) -> int| #[trigger]
            evaluate(inequality.lhs@, assignment) * divisor == factor1 * evaluate(
                c1.lhs@,
                assignment,
            ) + factor2 * evaluate(c2.lhs@, assignment) by {
            lemma_evaluate_permutation(inequality.lhs@, quotients@, assignment);
            lemma_evaluate_scaled(quotients@, kept@, divisor as int, assignment);
            let e = evaluate(quotients@, assignment);
            assert(e * divisor == divisor * e) by (nonlinear_arith);
        }
        assert(is_combination_divided_by(&inequality, divisor as int, var, c1, c2)) by {
            assert(final_rhs * divisor == divisor * final_rhs) by (nonlinear_arith);
            assert forall|x: DomainId|
                coefficient(inequality.lhs@, x) * divisor == #[trigger] combined_coefficient(
                    var,
                    c1,
                    c2,
                    x,
                ) by {
                lemma_coefficient_is_evaluation(inequality.lhs@, x);
                lemma_coefficient_is_evaluation(c1.lhs@, x);
                lemma_coefficient_is_evaluation(c2.lhs@, x);
                assert(evaluate(inequality.lhs@, indicator(x)) * divisor == factor1 * evaluate(
                    c1.lhs@,
                    indicator(x),
                ) + factor2 * evaluate(c2.lhs@, indicator(x)));
            }
        }
        assert(coefficient(inequality.lhs@, var) == 0) by {
            let c = coefficient(inequality.lhs@, var);
            assert(c * divisor == combined_coefficient(var, c1, c2, var));
            assert(c == 0) by (nonlinear_arith)
                requires
                    c * divisor == 0,
                    divisor > 0,
            ;
        }
        if mentions(inequality.lhs@, var) {
            let i = choose|i: int| 0 <= i < inequality.lhs@.len() && (#[trigger] inequality.lhs@[i]).0
                == var;
            lemma_coefficient_of_term(inequality.lhs@, i);
        }
        assert forall|assignment: spec_fn(DomainId) -> int|
            c1.holds(assignment) && c2.holds(assignment) implies #[trigger] inequality.holds(
            assignment,
        ) by {
            assert(evaluate(inequality.lhs@, assignment) * divisor == factor1 * evaluate(
                c1.lhs@,
                assignment,
            ) + factor2 * evaluate(c2.lhs@, assignment));
            assert(final_rhs * divisor == new_rhs) by (nonlinear_arith)
                requires
                    divisor * final_rhs == new_rhs,
            ;
            lemma_combination_holds(
                evaluate(c1.lhs@, assignment),
                c1.rhs as int,
                evaluate(c2.lhs@, assignment),
                c2.rhs as int,
                factor1 as int,
                factor2 as int,
                evaluate(inequality.lhs@, assignment),
                final_rhs as int,
                divisor as int,
            );
        }
        assert(clash->0 == has_clash(var, c1, c2)) by {
            if clash->0 {
                let j = choose|j: int|
                    0 <= j < c2.lhs@.len() && (#[trigger] c2.lhs@[j]).0 != var && mentions(
                        first,
                        c2.lhs@[j].0,
                    );
                let x = c2.lhs@[j].0;
                let i = choose|i: int| 0 <= i < first.len() && (#[trigger] first[i]).0 == x;
                assert(c1.lhs@[i].0 == x);
                assert(mentions(c1.lhs@, x) && mentions(c2.lhs@, x) && x != var);
            }
            if has_clash(var, c1, c2) {
                let x = choose|x: DomainId|
                    x != var && #[trigger] mentions(c1.lhs@, x) && mentions(c2.lhs@, x);
                let i = choose|i: int| 0 <= i < c1.lhs@.len() && (#[trigger] c1.lhs@[i]).0 == x;
                assert(first[i].0 == x);
                assert(mentions(first, x));
                let j = choose|j: int| 0 <= j < c2.lhs@.len() && (#[trigger] c2.lhs@[j]).0 == x;
                assert(c2.lhs@[j].0 != var && mentions(first, c2.lhs@[j].0));
            }
        }
        assert forall|x: DomainId| #[trigger] mentions(inequality.lhs@, x) implies mentions(
            c1.lhs@,
            x,
        ) || mentions(c2.lhs@, x) by {
            let i = choose|i: int| 0 <= i < inequality.lhs@.len() && (#[trigger] inequality.lhs@[i]).0
                == x;
            lemma_coefficient_of_term(inequality.lhs@, i);
            let c = coefficient(inequality.lhs@, x);
            assert(c * divisor == combined_coefficient(var, c1, c2, x));
            if !mentions(c1.lhs@, x) && !mentions(c2.lhs@, x) {
                lemma_coefficient_unmentioned(c1.lhs@, x);
                lemma_coefficient_unmentioned(c2.lhs@, x);
                assert(combined_coefficient(var, c1, c2, x) == 0) by (nonlinear_arith)
                    requires
                        combined_coefficient(var, c1, c2, x) == first_multiplier(var, c1, c2)
                            * coefficient(c1.lhs@, x) + second_multiplier(var, c1, c2) * coefficient(
                            c2.lhs@,
                            x,
                        ),
                        coefficient(c1.lhs@, x) == 0,
                        coefficient(c2.lhs@, x) == 0,
                ;
                assert(false) by (nonlinear_arith)
                    requires
                        c * divisor == 0,
                        c != 0,
                        divisor > 0,
                ;
            }
        }
        assert forall|d: int| d > 1 implies !#[trigger] divides_all(
            d,
            inequality.lhs@,
            inequality.rhs as int,
        ) by {
            if divides_all(d, inequality.lhs@, inequality.rhs as int) {
                assert(divides_all(d * divisor, kept@, new_rhs as int)) by {
                    lemma_product_divides(new_rhs as int, final_rhs as int, divisor as int, d);
                    assert forall|k: int| 0 <= k < kept@.len() implies abs(
                        (#[trigger] kept@[k]).1 as int,
                    ) % (d * divisor) == 0 by {
                        let q = quotients@[k];
                        assert(quotients@.contains(q));
                        to_multiset_contains(quotients@, q);
                        to_multiset_contains(inequality.lhs@, q);
                        let m = choose|m: int| 0 <= m < inequality.lhs@.len() && inequality.lhs@[m]
                            == q;
                        assert(abs(inequality.lhs@[m].1 as int) % d == 0);
                        lemma_product_divides(kept@[k].1 as int, q.1 as int, divisor as int, d);
                    }
                }
                assert(d * divisor > 0) by (nonlinear_arith)
                    requires
                        d > 1,
                        divisor > 0,
                ;
                assert((divisor as int) % (d * divisor) == 0);
                assert(divisor < d * divisor) by (nonlinear_arith)
                    requires
                        d > 1,
                        divisor > 0,
                ;
                lemma_small_mod(divisor as nat, (d * divisor) as nat);
            }
        }
    }
    CutResult::Success { inequality, skip_early_backjump }
}

} // verus!
