//! Linear inequalities `a1*x1 + ... + an*xn <= rhs` over the variables of a
//! store, and what they say at a point of its trail.

use itertools::Itertools;
use vstd::prelude::*;
use vstd::relations::sorted_by;
use vstd::relations::total_ordering;
use vstd::seq_lib::lemma_sorted_unique;
use vstd::seq_lib::to_multiset_len;
use vstd::std_specs::cmp::PartialEqSpecImpl;
use vstd::string::StringExecFns;
use crate::basic_types::text::decimal;
use crate::basic_types::text::decimal_text;
use crate::basic_types::text::join_texts;
use crate::basic_types::text::joined;
use crate::basic_types::text::texts;
use crate::basic_types::text::variable_text;
use crate::basic_types::text::variable_to_text;
use crate::basic_types::arithmetic::lemma_i32_product_bounds;
use crate::basic_types::domain_id::DomainId;
use crate::basic_types::linear_terms::evaluate;
use crate::basic_types::linear_terms::lemma_distinct_variables_bound;
use crate::basic_types::linear_terms::lemma_lower_bound_sum_range;
use crate::basic_types::linear_terms::lemma_upper_bound_sum_range;
use crate::basic_types::linear_terms::lower_bound_sum;
use crate::basic_types::linear_terms::lower_bounds_fit;
use crate::basic_types::linear_terms::mentions;
use crate::basic_types::linear_terms::term_lower_bound;
use crate::basic_types::linear_terms::term_upper_bound;
use crate::basic_types::linear_terms::terms_valid;
use crate::basic_types::linear_terms::terms_wf;
use crate::basic_types::linear_terms::upper_bound_sum;
use crate::basic_types::linear_terms::upper_bounds_fit;
use crate::basic_types::variables::AffineView;
use crate::engine::assignments_integer::AssignmentsInteger;
use crate::engine::assignments_view::AssignmentsView;

verus! {

/// The left-hand side of a linear inequality: its terms, each a variable with
/// its coefficient.
#[derive(Default, Debug, Clone, Eq, Hash)]
pub struct LinearLessOrEqualLhs(pub Vec<(DomainId, i32)>);

impl From<Vec<(DomainId, i32)>> for LinearLessOrEqualLhs {
    fn from(value: Vec<(DomainId, i32)>) -> (r: Self) {
        LinearLessOrEqualLhs(value)
    }
}

impl vstd::std_specs::convert::FromSpecImpl<Vec<(DomainId, i32)>> for LinearLessOrEqualLhs {
    open spec fn obeys_from_spec() -> bool {
        true
    }

    open spec fn from_spec(value: Vec<(DomainId, i32)>) -> Self {
        LinearLessOrEqualLhs(value)
    }
}

/// The inequality `lhs <= rhs`.
#[derive(Default, Debug, Clone, Eq, Hash)]
pub struct LinearLessOrEqual {
    pub lhs: LinearLessOrEqualLhs,
    pub rhs: i32,
}

/// The order in which terms are written out: by the variable's number, and
/// by coefficient where a variable occurs twice.
pub open spec fn term_leq(a: (DomainId, i32), b: (DomainId, i32)) -> bool {
    a.0.id < b.0.id || (a.0.id == b.0.id && a.1 <= b.1)
}

/// std's iterator that hands out the items of a slice for writing.
#[verifier::external_type_specification]
#[verifier::external_body]
#[verifier::reject_recursive_types(T)]
pub struct ExIterMut<'a, T: 'a>(std::slice::IterMut<'a, T>);

/// The key by which terms are sorted.
pub fn term_key(term: &(DomainId, i32)) -> (r: (u32, i32))
    ensures
        r == (term.0.id, term.1),
{
    (term.0.id, term.1)
}

/// Sorts terms with itertools' `sorted_by_key`, which sorts a copy of the
/// items in ascending order of their keys. The key here is the pair of
/// variable number and coefficient, so the result holds the same terms,
/// each as often as before, in ascending order of `term_leq`.
#[verifier::external_body]
pub(crate) fn sorted_terms(terms: &Vec<(DomainId, i32)>) -> (r: Vec<(DomainId, i32)>)
    ensures
        r@.to_multiset() == terms@.to_multiset(),
        sorted_by(r@, term_order()),
{
    terms.iter().copied().sorted_by_key(|term| term_key(term)).collect()
}

impl PartialEq for LinearLessOrEqualLhs {
    /// Two left-hand sides are equal when they hold the same terms, in
    /// whatever order.
    fn eq(&self, other: &Self) -> (r: bool) {
        let left = sorted_terms(&self.0);
        let right = sorted_terms(&other.0);
        proof {
            to_multiset_len(left@);
            to_multiset_len(right@);
            to_multiset_len(self.0@);
            to_multiset_len(other.0@);
            lemma_term_order_is_total();
            if self.0@.to_multiset() == other.0@.to_multiset() {
                lemma_sorted_unique(left@, right@, term_order());
            }
        }
        if left.len() != right.len() {
            return false;
        }
        let mut i: usize = 0;
        while i < left.len()
            invariant
                left@.len() == right@.len(),
                i <= left@.len(),
                forall|k: int| 0 <= k < i ==> left@[k] == right@[k],
                self.0@.to_multiset() == other.0@.to_multiset() ==> left@ == right@,
            decreases left.len() - i,
        {
            if left[i].0.id != right[i].0.id || left[i].1 != right[i].1 {
                return false;
            }
            i += 1;
        }
        assert(left@ =~= right@);
        true
    }
}

impl PartialEqSpecImpl for LinearLessOrEqualLhs {
    open spec fn obeys_eq_spec() -> bool {
        true
    }

    open spec fn eq_spec(&self, other: &Self) -> bool {
        self.0@.to_multiset() == other.0@.to_multiset()
    }
}

impl PartialEq for LinearLessOrEqual {
    /// Two inequalities are equal when their right-hand sides are, and their
    /// left-hand sides hold the same terms.
    fn eq(&self, other: &Self) -> (r: bool) {
        self.rhs == other.rhs && self.lhs == other.lhs
    }
}

impl PartialEqSpecImpl for LinearLessOrEqual {
    open spec fn obeys_eq_spec() -> bool {
        true
    }

    open spec fn eq_spec(&self, other: &Self) -> bool {
        self.rhs == other.rhs && self.lhs.0@.to_multiset() == other.lhs.0@.to_multiset()
    }
}

/// The first term of `x`, if there is one, has the coefficient `scale`.
pub open spec fn is_first_scale(terms: Seq<(DomainId, i32)>, x: DomainId, scale: Option<i32>) -> bool {
    match scale {
        None => !mentions(terms, x),
        Some(value) => exists|i: int|
            0 <= i < terms.len() && #[trigger] terms[i] == (x, value) && forall|j: int|
                0 <= j < i ==> (#[trigger] terms[j]).0 != x,
    }
}

/// The least value of the term `scale * variable` after the first `n` trail
/// entries.
pub fn term_lower_bound_after(variable: DomainId, scale: i32, assignments: &AssignmentsInteger, n: usize) -> (r:
    i64)
    requires
        assignments.wf(),
        assignments@.is_valid_domain(variable),
        n <= assignments@.trail.len(),
    ensures
        r == term_lower_bound((variable, scale), assignments@, n as nat),
{
    let bound = if scale < 0 {
        assignments.get_upper_bound_after(variable, n)
    } else {
        assignments.get_lower_bound_after(variable, n)
    };
    proof {
        lemma_i32_product_bounds(scale as int, bound as int);
    }
    scale as i64 * bound as i64
}

/// The greatest value of the term `scale * variable` after the first `n`
/// trail entries.
pub fn term_upper_bound_after(variable: DomainId, scale: i32, assignments: &AssignmentsInteger, n: usize) -> (r:
    i64)
    requires
        assignments.wf(),
        assignments@.is_valid_domain(variable),
        n <= assignments@.trail.len(),
    ensures
        r == term_upper_bound((variable, scale), assignments@, n as nat),
{
    let bound = if scale < 0 {
        assignments.get_lower_bound_after(variable, n)
    } else {
        assignments.get_upper_bound_after(variable, n)
    };
    proof {
        lemma_i32_product_bounds(scale as int, bound as int);
    }
    scale as i64 * bound as i64
}

impl View for LinearLessOrEqualLhs {
    type V = Seq<(DomainId, i32)>;

    open spec fn view(&self) -> Seq<(DomainId, i32)> {
        self.0@
    }
}

impl LinearLessOrEqualLhs {
    pub fn len(&self) -> (r: usize)
        ensures
            r == self@.len(),
    {
        self.0.len()
    }

    /// An iterator over the terms, in their order.
    pub fn iter(&self) -> (r: std::slice::Iter<'_, (DomainId, i32)>)
        ensures
            vstd::std_specs::iter::IteratorSpec::remaining(&r) == self@.as_ref(),
    {
        broadcast use vstd::std_specs::slice::axiom_spec_slice_iter;

        let terms: &[(DomainId, i32)] = self.0.as_slice();
        terms.iter()
    }

/// std's `iter_mut` on the terms: an iterator that hands out each term
    /// for writing, in their order. Nothing is known of the terms after it
    /// was used.
    #[verifier::external_body]
    pub fn iter_mut(&mut self) -> (r: std::slice::IterMut<'_, (DomainId, i32)>) {
        self.0.iter_mut()
    }

        pub fn contains_variable(&self, variable: DomainId) -> (r: bool)
        ensures
            r == mentions(self@, variable),
    {
        self.find_variable_scale(variable).is_some()
    }

    /// The coefficient in the first term of `variable`.
    pub fn find_variable_scale(&self, variable: DomainId) -> (r: Option<i32>)
        ensures
            is_first_scale(self@, variable, r),
    {
        let mut i: usize = 0;
        while i < self.0.len()
            invariant
                i <= self@.len(),
                forall|j: int| 0 <= j < i ==> (#[trigger] self@[j]).0 != variable,
            decreases self.0.len() - i,
        {
            let term = self.0[i];
            if term.0 == variable {
                assert(self@[i as int] == (variable, term.1));
                return Some(term.1);
            }
            i += 1;
        }
        None
    }

    /// The terms as views `scale * variable`.
    pub fn to_vars(&self) -> (r: Vec<AffineView<DomainId>>)
        ensures
            r@.len() == self@.len(),
            forall|i: int|
                0 <= i < self@.len() ==> #[trigger] r@[i] == (AffineView {
                    inner: self@[i].0,
                    scale: self@[i].1,
                    offset: 0,
                }),
    {
        let mut vars: Vec<AffineView<DomainId>> = Vec::new();
        let mut i: usize = 0;
        while i < self.0.len()
            invariant
                i <= self@.len(),
                vars@.len() == i,
                forall|k: int|
                    0 <= k < i ==> #[trigger] vars@[k] == (AffineView {
                        inner: self@[k].0,
                        scale: self@[k].1,
                        offset: 0,
                    }),
            decreases self.0.len() - i,
        {
            let term = self.0[i];
            vars.push(term.0.scaled(term.1));
            i += 1;
        }
        vars
    }

    /// Whether the least value of some term, after the first `n` trail
    /// entries, is no `i32`.
    pub fn lb_overflows_after(&self, assignments: &AssignmentsInteger, n: usize) -> (r: bool)
        requires
            assignments.wf(),
            terms_valid(self@, assignments@),
            n <= assignments@.trail.len(),
        ensures
            r == !lower_bounds_fit(self@, assignments@, n as nat),
    {
        let mut i: usize = 0;
        while i < self.0.len()
            invariant
                assignments.wf(),
                terms_valid(self@, assignments@),
                n <= assignments@.trail.len(),
                i <= self@.len(),
                forall|k: int|
                    0 <= k < i ==> i32::MIN <= #[trigger] term_lower_bound(
                        self@[k],
                        assignments@,
                        n as nat,
                    ) <= i32::MAX,
            decreases self.0.len() - i,
        {
            let term = self.0[i];
            assert(assignments@.is_valid_domain(self@[i as int].0));
            let value = term_lower_bound_after(term.0, term.1, assignments, n);
            if value < i32::MIN as i64 || value > i32::MAX as i64 {
                assert(!(i32::MIN <= term_lower_bound(self@[i as int], assignments@, n as nat)
                    <= i32::MAX));
                return true;
            }
            i += 1;
        }
        false
    }

    /// Whether the least value of some term, immediately after trail entry
    /// `trail_position`, or now where the trail ends before that position,
    /// is no `i32`.
    pub fn lb_overflows(&self, assignments: &AssignmentsInteger, trail_position: usize) -> (r: bool)
        requires
            assignments.wf(),
            terms_valid(self@, assignments@),
        ensures
            r == !lower_bounds_fit(self@, assignments@, assignments@.entries_up_to(trail_position)),
    {
        let trail_length: usize = assignments.num_trail_entries();
        self.lb_overflows_after(assignments, assignments.num_entries_up_to(trail_position))
    }

    /// The sum of the terms' least values after the first `n` trail entries.
    pub fn lb_after(&self, assignments: &AssignmentsInteger, n: usize) -> (r: i64)
        requires
            assignments.wf(),
            terms_wf(self@),
            terms_valid(self@, assignments@),
            n <= assignments@.trail.len(),
            lower_bounds_fit(self@, assignments@, n as nat),
        ensures
            r == lower_bound_sum(self@, assignments@, n as nat),
            i32::MIN * self@.len() <= r <= i32::MAX * self@.len(),
            self@.len() <= u32::MAX,
    {
        proof {
            assignments.lemma_view_wf();
            lemma_distinct_variables_bound(self@, assignments@);
            lemma_lower_bound_sum_range(self@, assignments@, n as nat);
        }
        let mut sum: i64 = 0;
        let mut i: usize = 0;
        while i < self.0.len()
            invariant
                assignments.wf(),
                terms_valid(self@, assignments@),
                n <= assignments@.trail.len(),
                lower_bounds_fit(self@, assignments@, n as nat),
                self@.len() <= u32::MAX,
                i <= self@.len(),
                sum == lower_bound_sum(self@.take(i as int), assignments@, n as nat),
                i32::MIN * i <= sum <= i32::MAX * i,
            decreases self.0.len() - i,
        {
            let term = self.0[i];
            assert(assignments@.is_valid_domain(self@[i as int].0));
            let value = term_lower_bound_after(term.0, term.1, assignments, n);
            proof {
                assert(self@.take(i + 1).drop_last() =~= self@.take(i as int));
                assert(i32::MIN <= term_lower_bound(self@[i as int], assignments@, n as nat)
                    <= i32::MAX);
            }
            sum = sum + value;
            i += 1;
        }
        proof {
            assert(self@.take(self@.len() as int) =~= self@);
        }
        sum
    }

    /// The sum of the terms' greatest values after the first `n` trail
    /// entries.
    pub fn ub_after(&self, assignments: &AssignmentsInteger, n: usize) -> (r: i64)
        requires
            assignments.wf(),
            terms_wf(self@),
            terms_valid(self@, assignments@),
            n <= assignments@.trail.len(),
            upper_bounds_fit(self@, assignments@, n as nat),
        ensures
            r == upper_bound_sum(self@, assignments@, n as nat),
    {
        proof {
            assignments.lemma_view_wf();
            lemma_distinct_variables_bound(self@, assignments@);
            lemma_upper_bound_sum_range(self@, assignments@, n as nat);
        }
        let mut sum: i64 = 0;
        let mut i: usize = 0;
        while i < self.0.len()
            invariant
                assignments.wf(),
                terms_valid(self@, assignments@),
                n <= assignments@.trail.len(),
                upper_bounds_fit(self@, assignments@, n as nat),
                self@.len() <= u32::MAX,
                i <= self@.len(),
                sum == upper_bound_sum(self@.take(i as int), assignments@, n as nat),
                i32::MIN * i <= sum <= i32::MAX * i,
            decreases self.0.len() - i,
        {
            let term = self.0[i];
            assert(assignments@.is_valid_domain(self@[i as int].0));
            let value = term_upper_bound_after(term.0, term.1, assignments, n);
            proof {
                assert(self@.take(i + 1).drop_last() =~= self@.take(i as int));
                assert(i32::MIN <= term_upper_bound(self@[i as int], assignments@, n as nat)
                    <= i32::MAX);
            }
            sum = sum + value;
            i += 1;
        }
        proof {
            assert(self@.take(self@.len() as int) =~= self@);
        }
        sum
    }

    /// The sum of the terms' least values immediately after trail entry
    /// `trail_position`, or now where the trail ends before that position.
    pub fn lb(&self, assignments: &AssignmentsInteger, trail_position: usize) -> (r: i64)
        requires
            assignments.wf(),
            terms_wf(self@),
            terms_valid(self@, assignments@),
            lower_bounds_fit(self@, assignments@, assignments@.entries_up_to(trail_position)),
        ensures
            r == lower_bound_sum(self@, assignments@, assignments@.entries_up_to(trail_position)),
    {
        let trail_length: usize = assignments.num_trail_entries();
        self.lb_after(assignments, assignments.num_entries_up_to(trail_position))
    }

    /// The sum of the terms' greatest values immediately after trail entry
    /// `trail_position`, or now where the trail ends before that position.
    pub fn ub(&self, assignments: &AssignmentsInteger, trail_position: usize) -> (r: i64)
        requires
            assignments.wf(),
            terms_wf(self@),
            terms_valid(self@, assignments@),
            upper_bounds_fit(self@, assignments@, assignments@.entries_up_to(trail_position)),
        ensures
            r == upper_bound_sum(self@, assignments@, assignments@.entries_up_to(trail_position)),
    {
        let trail_length: usize = assignments.num_trail_entries();
        self.ub_after(assignments, assignments.num_entries_up_to(trail_position))
    }

    /// The sum of the terms' least values in the initial domains.
    pub fn lb_initial(&self, assignments: &AssignmentsInteger) -> (r: i64)
        requires
            assignments.wf(),
            terms_wf(self@),
            terms_valid(self@, assignments@),
            lower_bounds_fit(self@, assignments@, 0),
        ensures
            r == lower_bound_sum(self@, assignments@, 0),
    {
        self.lb_after(assignments, 0)
    }

    /// The sum of the terms' greatest values in the initial domains.
    pub fn ub_initial(&self, assignments: &AssignmentsInteger) -> (r: i64)
        requires
            assignments.wf(),
            terms_wf(self@),
            terms_valid(self@, assignments@),
            upper_bounds_fit(self@, assignments@, 0),
        ensures
            r == upper_bound_sum(self@, assignments@, 0),
    {
        self.ub_after(assignments, 0)
    }
}

impl LinearLessOrEqual {
    /// The invariant of an inequality: no zero coefficient, no variable
    /// twice.
    pub open spec fn wf(&self) -> bool {
        terms_wf(self.lhs@)
    }

    /// Every variable of the inequality is one of the store.
    pub open spec fn valid_for(&self, s: AssignmentsView) -> bool {
        terms_valid(self.lhs@, s)
    }

    /// Whether the inequality is true where every variable `x` has the value
    /// `assignment(x)`.
    pub open spec fn holds(&self, assignment: spec_fn(DomainId) -> int) -> bool {
        evaluate(self.lhs@, assignment) <= self.rhs
    }

    /// `rhs` minus the least value of the left-hand side.
    pub open spec fn spec_slack(&self, s: AssignmentsView, n: nat) -> int {
        self.rhs - lower_bound_sum(self.lhs@, s, n)
    }

    /// Even the least value of the left-hand side exceeds `rhs`.
    pub open spec fn spec_is_conflicting(&self, s: AssignmentsView, n: nat) -> bool {
        self.spec_slack(s, n) < 0
    }

    /// Some term can take a value that the others' least values and `rhs`
    /// rule out.
    pub open spec fn spec_is_propagating(&self, s: AssignmentsView, n: nat) -> bool {
        Self::spec_is_propagating_terms(self.lhs@, self.rhs as int, s, n)
    }

    /// `spec_is_propagating` for an inequality given by its parts.
    pub open spec fn spec_is_propagating_terms(
        terms: Seq<(DomainId, i32)>,
        rhs: int,
        s: AssignmentsView,
        n: nat,
    ) -> bool {
        exists|i: int|
            0 <= i < terms.len() && #[trigger] term_upper_bound(terms[i], s, n) > rhs - lower_bound_sum(
                terms,
                s,
                n,
            ) + term_lower_bound(terms[i], s, n)
    }

    /// Some term's least value is no `i32`, or the greatest value that the
    /// inequality leaves to some term is none.
    pub open spec fn spec_overflows(&self, s: AssignmentsView, n: nat) -> bool {
        ||| !lower_bounds_fit(self.lhs@, s, n)
        ||| exists|i: int|
            0 <= i < self.lhs@.len() && !(i32::MIN <= self.spec_slack(s, n)
                + #[trigger] term_lower_bound(self.lhs@[i], s, n) <= i32::MAX)
    }

    /// `Some(true)` where the inequality holds whatever values are left,
    /// `Some(false)` where it fails whatever values are left, else `None`.
    pub open spec fn spec_evaluate(&self, s: AssignmentsView, n: nat) -> Option<bool> {
        if upper_bound_sum(self.lhs@, s, n) <= self.rhs {
            Some(true)
        } else if lower_bound_sum(self.lhs@, s, n) > self.rhs {
            Some(false)
        } else {
            None
        }
    }

    pub fn new(lhs: Vec<(DomainId, i32)>, rhs: i32) -> (r: LinearLessOrEqual)
        ensures
            r.lhs@ == lhs@,
            r.rhs == rhs,
    {
        LinearLessOrEqual { lhs: LinearLessOrEqualLhs(lhs), rhs }
    }

    /// A copy of the inequality.
    pub fn duplicate(&self) -> (r: LinearLessOrEqual)
        ensures
            r.lhs@ == self.lhs@,
            r.rhs == self.rhs,
    {
        let mut terms: Vec<(DomainId, i32)> = Vec::new();
        let mut i: usize = 0;
        while i < self.lhs.0.len()
            invariant
                i <= self.lhs@.len(),
                terms@ == self.lhs@.take(i as int),
            decreases self.lhs.0.len() - i,
        {
            terms.push(self.lhs.0[i]);
            proof {
                assert(self.lhs@.take(i + 1) =~= self.lhs@.take(i as int).push(self.lhs@[i as int]));
            }
            i += 1;
        }
        proof {
            assert(self.lhs@.take(self.lhs@.len() as int) =~= self.lhs@);
        }
        LinearLessOrEqual { lhs: LinearLessOrEqualLhs(terms), rhs: self.rhs }
    }

    pub fn contains_variable(&self, variable: DomainId) -> (r: bool)
        ensures
            r == mentions(self.lhs@, variable),
    {
        self.lhs.contains_variable(variable)
    }

    /// The coefficient in the first term of `variable`.
    pub fn find_variable_scale(&self, variable: DomainId) -> (r: Option<i32>)
        ensures
            is_first_scale(self.lhs@, variable, r),
    {
        self.lhs.find_variable_scale(variable)
    }

    /// The terms as views `scale * variable`.
    pub fn to_vars(&self) -> (r: Vec<AffineView<DomainId>>)
        ensures
            r@.len() == self.lhs@.len(),
            forall|i: int|
                0 <= i < self.lhs@.len() ==> #[trigger] r@[i] == (AffineView {
                    inner: self.lhs@[i].0,
                    scale: self.lhs@[i].1,
                    offset: 0,
                }),
    {
        self.lhs.to_vars()
    }

    /// `rhs` minus the least value of the left-hand side after the first `n`
    /// trail entries.
    pub fn slack_after(&self, assignments: &AssignmentsInteger, n: usize) -> (r: i64)
        requires
            assignments.wf(),
            self.wf(),
            self.valid_for(assignments@),
            n <= assignments@.trail.len(),
            lower_bounds_fit(self.lhs@, assignments@, n as nat),
        ensures
            r == self.spec_slack(assignments@, n as nat),
    {
        let lb = self.lhs.lb_after(assignments, n);
        self.rhs as i64 - lb
    }

    /// Whether the inequality is violated whatever values are left after the
    /// first `n` trail entries.
    pub fn is_conflicting_after(&self, assignments: &AssignmentsInteger, n: usize) -> (r: bool)
        requires
            assignments.wf(),
            self.wf(),
            self.valid_for(assignments@),
            n <= assignments@.trail.len(),
            lower_bounds_fit(self.lhs@, assignments@, n as nat),
        ensures
            r == self.spec_is_conflicting(assignments@, n as nat),
    {
        self.slack_after(assignments, n) < 0
    }

    /// Whether the inequality removes a value from some domain after the
    /// first `n` trail entries.
    pub fn is_propagating_after(&self, assignments: &AssignmentsInteger, n: usize) -> (r: bool)
        requires
            assignments.wf(),
            self.wf(),
            self.valid_for(assignments@),
            n <= assignments@.trail.len(),
            lower_bounds_fit(self.lhs@, assignments@, n as nat),
        ensures
            r == self.spec_is_propagating(assignments@, n as nat),
    {
        let slack = self.slack_after(assignments, n);
        let mut i: usize = 0;
        while i < self.lhs.0.len()
            invariant
                assignments.wf(),
                self.valid_for(assignments@),
                n <= assignments@.trail.len(),
                slack == self.spec_slack(assignments@, n as nat),
                i <= self.lhs@.len(),
                forall|k: int|
                    0 <= k < i ==> #[trigger] term_upper_bound(self.lhs@[k], assignments@, n as nat)
                        <= slack + term_lower_bound(self.lhs@[k], assignments@, n as nat),
            decreases self.lhs.0.len() - i,
        {
            let term = self.lhs.0[i];
            assert(assignments@.is_valid_domain(self.lhs@[i as int].0));
            let lower = term_lower_bound_after(term.0, term.1, assignments, n);
            let upper = term_upper_bound_after(term.0, term.1, assignments, n);
            if upper as i128 > slack as i128 + lower as i128 {
                assert(term_upper_bound(self.lhs@[i as int], assignments@, n as nat) > slack
                    + term_lower_bound(self.lhs@[i as int], assignments@, n as nat));
                return true;
            }
            i += 1;
        }
        false
    }

    /// Whether evaluating the inequality after the first `n` trail entries
    /// leaves the `i32` range.
    pub fn overflows_after(&self, assignments: &AssignmentsInteger, n: usize) -> (r: bool)
        requires
            assignments.wf(),
            self.wf(),
            self.valid_for(assignments@),
            n <= assignments@.trail.len(),
        ensures
            r == self.spec_overflows(assignments@, n as nat),
    {
        if self.lhs.lb_overflows_after(assignments, n) {
            return true;
        }
        let slack = self.slack_after(assignments, n);
        let mut i: usize = 0;
        while i < self.lhs.0.len()
            invariant
                assignments.wf(),
                self.valid_for(assignments@),
                n <= assignments@.trail.len(),
                lower_bounds_fit(self.lhs@, assignments@, n as nat),
                slack == self.spec_slack(assignments@, n as nat),
                i <= self.lhs@.len(),
                forall|k: int|
                    0 <= k < i ==> i32::MIN <= slack + #[trigger] term_lower_bound(
                        self.lhs@[k],
                        assignments@,
                        n as nat,
                    ) <= i32::MAX,
            decreases self.lhs.0.len() - i,
        {
            let term = self.lhs.0[i];
            assert(assignments@.is_valid_domain(self.lhs@[i as int].0));
            let lower = term_lower_bound_after(term.0, term.1, assignments, n);
            let bound: i128 = slack as i128 + lower as i128;
            if bound < i32::MIN as i128 || bound > i32::MAX as i128 {
                assert(!(i32::MIN <= slack + term_lower_bound(
                    self.lhs@[i as int],
                    assignments@,
                    n as nat,
                ) <= i32::MAX));
                return true;
            }
            i += 1;
        }
        false
    }

    /// The least value of the left-hand side immediately after trail entry
    /// `trail_position`, or now where the trail ends before that position.
    pub fn lb_lhs(&self, assignments: &AssignmentsInteger, trail_position: usize) -> (r: i64)
        requires
            assignments.wf(),
            self.wf(),
            self.valid_for(assignments@),
            lower_bounds_fit(self.lhs@, assignments@, assignments@.entries_up_to(trail_position)),
        ensures
            r == lower_bound_sum(self.lhs@, assignments@, assignments@.entries_up_to(trail_position)),
    {
        self.lhs.lb(assignments, trail_position)
    }

    /// `rhs` minus the least value of the left-hand side immediately after
    /// trail entry `trail_position`, or now where the trail ends before that
    /// position: on an empty trail every position reads the root.
    pub fn slack(&self, assignments: &AssignmentsInteger, trail_position: usize) -> (r: i64)
        requires
            assignments.wf(),
            self.wf(),
            self.valid_for(assignments@),
            lower_bounds_fit(self.lhs@, assignments@, assignments@.entries_up_to(trail_position)),
        ensures
            r == self.spec_slack(assignments@, assignments@.entries_up_to(trail_position)),
    {
        let trail_length: usize = assignments.num_trail_entries();
        self.slack_after(assignments, assignments.num_entries_up_to(trail_position))
    }

    /// Whether the inequality is violated whatever values are left
    /// immediately after trail entry `trail_position`, or now where the
    /// trail ends before that position.
    pub fn is_conflicting(&self, assignments: &AssignmentsInteger, trail_position: usize) -> (r: bool)
        requires
            assignments.wf(),
            self.wf(),
            self.valid_for(assignments@),
            lower_bounds_fit(self.lhs@, assignments@, assignments@.entries_up_to(trail_position)),
        ensures
            r == self.spec_is_conflicting(assignments@, assignments@.entries_up_to(trail_position)),
    {
        let trail_length: usize = assignments.num_trail_entries();
        self.is_conflicting_after(assignments, assignments.num_entries_up_to(trail_position))
    }

    /// Whether the inequality removes a value from some domain immediately
    /// after trail entry `trail_position`, or now where the trail ends
    /// before that position.
    pub fn is_propagating(&self, assignments: &AssignmentsInteger, trail_position: usize) -> (r: bool)
        requires
            assignments.wf(),
            self.wf(),
            self.valid_for(assignments@),
            lower_bounds_fit(self.lhs@, assignments@, assignments@.entries_up_to(trail_position)),
        ensures
            r == self.spec_is_propagating(assignments@, assignments@.entries_up_to(trail_position)),
    {
        let trail_length: usize = assignments.num_trail_entries();
        self.is_propagating_after(assignments, assignments.num_entries_up_to(trail_position))
    }

    /// Whether evaluating the inequality immediately after trail entry
    /// `trail_position`, or now where the trail ends before that position,
    /// leaves the `i32` range.
    pub fn overflows(&self, assignments: &AssignmentsInteger, trail_position: usize) -> (r: bool)
        requires
            assignments.wf(),
            self.wf(),
            self.valid_for(assignments@),
        ensures
            r == self.spec_overflows(assignments@, assignments@.entries_up_to(trail_position)),
    {
        let trail_length: usize = assignments.num_trail_entries();
        self.overflows_after(assignments, assignments.num_entries_up_to(trail_position))
    }

    /// What the domains immediately after trail entry `trail_position`, or
    /// now where the trail ends before that position, say of the
    /// inequality.
    pub fn evaluate_at_trail_position(&self, assignments: &AssignmentsInteger, trail_position: usize) -> (r:
        Option<bool>)
        requires
            assignments.wf(),
            self.wf(),
            self.valid_for(assignments@),
            lower_bounds_fit(self.lhs@, assignments@, assignments@.entries_up_to(trail_position)),
            upper_bounds_fit(self.lhs@, assignments@, assignments@.entries_up_to(trail_position)),
        ensures
            r == self.spec_evaluate(assignments@, assignments@.entries_up_to(trail_position)),
    {
        let ub_lhs = self.lhs.ub(assignments, trail_position);
        let lb_lhs = self.lhs.lb(assignments, trail_position);
        if ub_lhs <= self.rhs as i64 {
            Some(true)
        } else if lb_lhs > self.rhs as i64 {
            Some(false)
        } else {
            None
        }
    }
}

/// `term_leq` as a relation.
pub open spec fn term_order() -> spec_fn((DomainId, i32), (DomainId, i32)) -> bool {
    |a: (DomainId, i32), b: (DomainId, i32)| term_leq(a, b)
}

/// `term_order` orders the terms totally.
pub proof fn lemma_term_order_is_total()
    ensures
        total_ordering(term_order()),
{
    let leq = term_order();
    assert forall|x: (DomainId, i32), y: (DomainId, i32)| #[trigger]
        leq(x, y) && #[trigger] leq(y, x) implies x == y by {
        assert(x.0.id == y.0.id && x.1 == y.1);
    }
}

/// A term is written as its coefficient and its variable, the coefficient
/// 1 left out and the coefficient -1 as a minus sign.
pub open spec fn term_text(term: (DomainId, i32)) -> Seq<char> {
    if term.1 == 1 {
        variable_text(term.0)
    } else if term.1 == -1 {
        "-"@ + variable_text(term.0)
    } else {
        decimal(term.1 as int) + variable_text(term.0)
    }
}

/// The texts of the terms whose coefficient is not zero.
pub open spec fn term_texts(terms: Seq<(DomainId, i32)>) -> Seq<Seq<char>>
    decreases terms.len(),
{
    if terms.len() == 0 {
        Seq::empty()
    } else if terms.last().1 == 0 {
        term_texts(terms.drop_last())
    } else {
        term_texts(terms.drop_last()).push(term_text(terms.last()))
    }
}

/// An inequality is written as its terms, in the order of their variables,
/// with ` + ` between each two, then ` <= ` and the right-hand side.
pub open spec fn inequality_text(terms: Seq<(DomainId, i32)>, rhs: int) -> Seq<char> {
    joined(term_texts(terms.sort_by(term_order())), " + "@) + " <= "@ + decimal(rhs)
}

/// The text of a term.
fn term_to_text(term: (DomainId, i32)) -> (r: String)
    ensures
        r@ == term_text(term),
{
    let variable = variable_to_text(term.0);
    if term.1 == 1 {
        variable
    } else if term.1 == -1 {
        let mut text = String::from_str("-");
        text.append(variable.as_str());
        text
    } else {
        let mut text = decimal_text(term.1 as i128);
        text.append(variable.as_str());
        text
    }
}

impl LinearLessOrEqual {
    /// The inequality as a text.
    pub fn to_text(&self) -> (r: String)
        ensures
            r@ == inequality_text(self.lhs@, self.rhs as int),
    {
        let sorted = sorted_terms(&self.lhs.0);
        proof {
            lemma_term_order_is_total();
            self.lhs@.lemma_sort_by_ensures(term_order());
            lemma_sorted_unique(sorted@, self.lhs@.sort_by(term_order()), term_order());
        }
        let mut parts: Vec<String> = Vec::new();
        let mut i: usize = 0;
        while i < sorted.len()
            invariant
                i <= sorted@.len(),
                texts(parts@) == term_texts(sorted@.take(i as int)),
            decreases sorted.len() - i,
        {
            let term = sorted[i];
            let ghost before = parts@;
            proof {
                assert(sorted@.take(i + 1).drop_last() =~= sorted@.take(i as int));
            }
            if term.1 != 0 {
                parts.push(term_to_text(term));
                proof {
                    assert(texts(parts@) =~= texts(before).push(term_text(term)));
                }
            }
            i += 1;
        }
        proof {
            assert(sorted@.take(sorted@.len() as int) =~= sorted@);
        }
        let mut text = join_texts(&parts, " + ");
        text.append(" <= ");
        let number = decimal_text(self.rhs as i128);
        text.append(number.as_str());
        text
    }
}

} // verus!
