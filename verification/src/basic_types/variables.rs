//! A variable is a view onto a domain of the store: the domain itself, or an
//! affine transformation `y = scale * x + offset` of it that needs no
//! constraint and no domain of its own.

use vstd::prelude::*;
use crate::basic_types::arithmetic::div_ceil;
use crate::basic_types::arithmetic::div_ceil_i64;
use crate::basic_types::arithmetic::div_floor;
use crate::basic_types::arithmetic::div_floor_i64;
use crate::basic_types::arithmetic::lemma_div_ceil_bounds;
use crate::basic_types::arithmetic::lemma_div_floor_bounds;
use crate::basic_types::arithmetic::lemma_i32_product_bounds;
use crate::basic_types::domain_events::DomainEvents;
use crate::basic_types::domain_events::IntDomainEvent;
use crate::basic_types::domain_events::OpaqueDomainEvent;
use crate::basic_types::domain_id::DomainId;
use crate::basic_types::predicate::Predicate;
use crate::engine::watch_list_cp::PropagatorVarId;
use crate::engine::watch_list_cp::WatchListCP;
use crate::engine::assignments_integer::AssignmentsInteger;
use crate::engine::assignments_view::AssignmentsView;
use crate::engine::assignments_view::EmptyDomain;
use crate::engine::assignments_view::ReasonRef;

verus! {

/// The direction in which a division is rounded.
#[derive(Clone, Copy, Debug, PartialEq, Eq)]
pub enum Rounding {
    Up,
    Down,
}

/// Models `y = scale * x + offset` by reading and writing the domain of `x`.
#[derive(Clone, Copy, Debug, PartialEq, Eq, Hash)]
pub struct AffineView<Inner> {
    pub inner: Inner,
    pub scale: i32,
    pub offset: i32,
}

impl<Inner> AffineView<Inner> {
    /// The value of the view where its inner variable is `value`.
    pub open spec fn spec_map(self, value: int) -> int {
        self.scale * value + self.offset
    }

    /// `(value - offset) / scale`, rounded as asked.
    pub open spec fn spec_invert(self, value: int, rounding: Rounding) -> int {
        match rounding {
            Rounding::Up => div_ceil(value - self.offset, self.scale as int),
            Rounding::Down => div_floor(value - self.offset, self.scale as int),
        }
    }

    /// The inner value of which the view has the value `value`, if `scale`
    /// divides `value - offset`.
    pub open spec fn spec_preimage(self, value: int) -> Option<int> {
        let quotient = div_floor(value - self.offset, self.scale as int);
        if self.scale * quotient == value - self.offset {
            Some(quotient)
        } else {
            None
        }
    }

    pub fn new(inner: Inner, scale: i32, offset: i32) -> (r: Self)
        ensures
            r.inner == inner,
            r.scale == scale,
            r.offset == offset,
    {
        AffineView { inner, scale, offset }
    }

    /// Goes from a value of the view to a value of the inner variable.
    pub fn invert(&self, value: i32, rounding: Rounding) -> (r: i64)
        requires
            self.scale != 0,
        ensures
            r == self.spec_invert(value as int, rounding),
            -0x1_0000_0000 <= r <= 0x1_0000_0000,
    {
        let shifted: i64 = value as i64 - self.offset as i64;
        proof {
            lemma_div_floor_bounds(shifted as int, self.scale as int);
            lemma_div_floor_bounds(-(shifted as int), self.scale as int);
            lemma_div_ceil_bounds(shifted as int, self.scale as int);
            lemma_quotient_magnitude(
                shifted as int,
                self.scale as int,
                div_floor(shifted as int, self.scale as int),
            );
            lemma_quotient_magnitude(
                -(shifted as int),
                self.scale as int,
                div_floor(-(shifted as int), self.scale as int),
            );
        }
        match rounding {
            Rounding::Up => div_ceil_i64(shifted, self.scale as i64),
            Rounding::Down => div_floor_i64(shifted, self.scale as i64),
        }
    }

    /// Goes from a value of the inner variable to the value of the view.
    pub fn map(&self, value: i32) -> (r: i64)
        ensures
            r == self.spec_map(value as int),
    {
        proof {
            lemma_i32_product_bounds(self.scale as int, value as int);
        }
        self.scale as i64 * value as i64 + self.offset as i64
    }

    /// The inner value that the view maps to `value`, where there is one
    /// among the `i32` values.
    pub fn preimage(&self, value: i32) -> (r: Option<i32>)
        requires
            self.scale != 0,
        ensures
            r is Some <==> (self.spec_preimage(value as int) is Some && i32::MIN
                <= self.spec_preimage(value as int)->0 <= i32::MAX),
            r is Some ==> r->0 == self.spec_preimage(value as int)->0,
    {
        let quotient = self.invert(value, Rounding::Down);
        proof {
            lemma_div_floor_bounds(value - self.offset, self.scale as int);
        }
        if quotient < i32::MIN as i64 || quotient > i32::MAX as i64 {
            return None;
        }
        proof {
            lemma_i32_product_bounds(self.scale as int, quotient as int);
        }
        if self.scale as i64 * quotient == value as i64 - self.offset as i64 {
            Some(quotient as i32)
        } else {
            None
        }
    }
}

/// A rounded-down quotient is no larger in magnitude than its dividend, plus
/// one.
proof fn lemma_quotient_magnitude(n: int, d: int, q: int)
    by (nonlinear_arith)
    requires
        d != 0,
        d > 0 ==> d * q <= n < d * q + d,
        d < 0 ==> d * q >= n > d * q + d,
    ensures
        n >= 0 ==> -n - 1 <= q <= n,
        n < 0 ==> n <= q <= -n,
{
}

/// The view has the value `value` at exactly one inner value, the one that
/// `spec_preimage` names, and at none where it names none.
pub proof fn lemma_preimage_is_the_inverse<Inner>(view: AffineView<Inner>, value: int, inner_value: int)
    requires
        view.scale != 0,
    ensures
        view.spec_map(inner_value) == value <==> view.spec_preimage(value) == Some(inner_value),
{
    let d = value - view.offset;
    let s = view.scale as int;
    lemma_div_floor_bounds(d, s);
    let q = div_floor(d, s);
    if view.spec_map(inner_value) == value {
        assert(q == inner_value) by (nonlinear_arith)
            requires
                s * inner_value == d,
                s != 0,
                s > 0 ==> s * q <= d < s * q + s,
                s < 0 ==> s * q >= d > s * q + s,
        ;
    }
}

impl DomainId {
    /// The domain of the variable in predicates: its bounds and the values
    /// that are missing between them.
    pub fn describe_domain(&self, assignment: &AssignmentsInteger) -> (r: Vec<Predicate>)
        requires
            assignment.wf(),
            assignment@.is_valid_domain(*self),
        ensures
            r@ == assignment@.domain_description(*self),
    {
        assignment.get_domain_description(*self)
    }

    pub fn lower_bound(&self, assignment: &AssignmentsInteger) -> (r: i32)
        requires
            assignment.wf(),
            assignment@.is_valid_domain(*self),
        ensures
            r == assignment@.lower_bound(*self),
    {
        assignment.get_lower_bound(*self)
    }

    pub fn upper_bound(&self, assignment: &AssignmentsInteger) -> (r: i32)
        requires
            assignment.wf(),
            assignment@.is_valid_domain(*self),
        ensures
            r == assignment@.upper_bound(*self),
    {
        assignment.get_upper_bound(*self)
    }

    pub fn contains(&self, assignment: &AssignmentsInteger, value: i32) -> (r: bool)
        requires
            assignment.wf(),
            assignment@.is_valid_domain(*self),
        ensures
            r == assignment@.contains(*self, value as int),
    {
        assignment.is_value_in_domain(*self, value)
    }

    pub fn remove(&self, assignment: &mut AssignmentsInteger, value: i32, reason: Option<ReasonRef>) -> (r:
        Result<(), EmptyDomain>)
        requires
            old(assignment).wf(),
            old(assignment)@.is_valid_domain(*self),
        ensures
            final(assignment).wf(),
            (final(assignment)@, r is Ok) == old(assignment)@.remove_value(*self, value, reason),
    {
        assignment.remove_value_from_domain(*self, value, reason)
    }

    pub fn set_lower_bound(
        &self,
        assignment: &mut AssignmentsInteger,
        value: i32,
        reason: Option<ReasonRef>,
    ) -> (r: Result<(), EmptyDomain>)
        requires
            old(assignment).wf(),
            old(assignment)@.is_valid_domain(*self),
        ensures
            final(assignment).wf(),
            (final(assignment)@, r is Ok) == old(assignment)@.tighten_lower_bound(
                *self,
                value,
                reason,
            ),
    {
        assignment.tighten_lower_bound(*self, value, reason)
    }

    pub fn set_upper_bound(
        &self,
        assignment: &mut AssignmentsInteger,
        value: i32,
        reason: Option<ReasonRef>,
    ) -> (r: Result<(), EmptyDomain>)
        requires
            old(assignment).wf(),
            old(assignment)@.is_valid_domain(*self),
        ensures
            final(assignment).wf(),
            (final(assignment)@, r is Ok) == old(assignment)@.tighten_upper_bound(
                *self,
                value,
                reason,
            ),
    {
        assignment.tighten_upper_bound(*self, value, reason)
    }

    /// The view `scale * self`.
    pub fn scaled(&self, scale: i32) -> (r: AffineView<DomainId>)
        ensures
            r == (AffineView { inner: *self, scale, offset: 0 }),
    {
        AffineView::new(*self, scale, 0)
    }

    /// The view `self + offset`.
    pub fn offset(&self, offset: i32) -> (r: AffineView<DomainId>)
        ensures
            r == (AffineView { inner: *self, scale: 1, offset }),
    {
        AffineView::new(*self, 1, offset)
    }

    pub fn lower_bound_predicate(&self, bound: i32) -> (r: Predicate)
        ensures
            r == (Predicate::LowerBound { domain_id: *self, lower_bound: bound }),
    {
        Predicate::LowerBound { domain_id: *self, lower_bound: bound }
    }

    pub fn upper_bound_predicate(&self, bound: i32) -> (r: Predicate)
        ensures
            r == (Predicate::UpperBound { domain_id: *self, upper_bound: bound }),
    {
        Predicate::UpperBound { domain_id: *self, upper_bound: bound }
    }

    pub fn equality_predicate(&self, bound: i32) -> (r: Predicate)
        ensures
            r == (Predicate::Equal { domain_id: *self, equality_constant: bound }),
    {
        Predicate::Equal { domain_id: *self, equality_constant: bound }
    }

    pub fn disequality_predicate(&self, bound: i32) -> (r: Predicate)
        ensures
            r == (Predicate::NotEqual { domain_id: *self, not_equal_constant: bound }),
    {
        Predicate::NotEqual { domain_id: *self, not_equal_constant: bound }
    }
}

/// `tighten_lower_bound` for a value that may lie outside `i32`: above it
/// the domain would be empty, below it nothing is asked.
pub open spec fn tighten_lower_bound_to(
    s: AssignmentsView,
    x: DomainId,
    value: int,
    reason: Option<ReasonRef>,
) -> (AssignmentsView, bool) {
    if value > i32::MAX {
        (s, false)
    } else if value < i32::MIN {
        (s, true)
    } else {
        s.tighten_lower_bound(x, value as i32, reason)
    }
}

/// `tighten_upper_bound` for a value that may lie outside `i32`.
pub open spec fn tighten_upper_bound_to(
    s: AssignmentsView,
    x: DomainId,
    value: int,
    reason: Option<ReasonRef>,
) -> (AssignmentsView, bool) {
    if value < i32::MIN {
        (s, false)
    } else if value > i32::MAX {
        (s, true)
    } else {
        s.tighten_upper_bound(x, value as i32, reason)
    }
}

impl<Inner: Copy> AffineView<Inner> {
    /// The view `scale * self`.
    pub open spec fn spec_scaled(self, scale: int) -> AffineView<Inner> {
        AffineView {
            inner: self.inner,
            scale: (self.scale * scale) as i32,
            offset: (self.offset * scale) as i32,
        }
    }

    /// The view `self + offset`.
    pub open spec fn spec_offset(self, offset: int) -> AffineView<Inner> {
        AffineView { inner: self.inner, scale: self.scale, offset: (self.offset + offset) as i32 }
    }

    /// The view `scale * self`: scale and offset are both multiplied.
    pub fn scaled(&self, scale: i32) -> (r: AffineView<Inner>)
        requires
            i32::MIN <= self.scale * scale <= i32::MAX,
            i32::MIN <= self.offset * scale <= i32::MAX,
        ensures
            r == self.spec_scaled(scale as int),
            r.scale == self.scale * scale,
            r.offset == self.offset * scale,
    {
        AffineView { inner: self.inner, scale: self.scale * scale, offset: self.offset * scale }
    }

    /// The view `self + offset`.
    pub fn offset(&self, offset: i32) -> (r: AffineView<Inner>)
        requires
            i32::MIN <= self.offset + offset <= i32::MAX,
        ensures
            r == self.spec_offset(offset as int),
            r.scale == self.scale,
            r.offset == self.offset + offset,
    {
        AffineView { inner: self.inner, scale: self.scale, offset: self.offset + offset }
    }
}

/// Scaling by one changes nothing, so a view scaled by `k` and then by one
/// has the scale it had after the first step.
pub proof fn lemma_scaled_by_one<Inner: Copy>(view: AffineView<Inner>, k: int)
    ensures
        view.spec_scaled(1) == view,
        view.spec_scaled(k).spec_scaled(1) == view.spec_scaled(k),
        view.scale == 1 && i32::MIN <= k <= i32::MAX ==> view.spec_scaled(k).spec_scaled(1).scale
            == k,
{
}

/// Offsetting by zero changes nothing.
pub proof fn lemma_offset_by_zero<Inner: Copy>(view: AffineView<Inner>)
    ensures
        view.spec_offset(0) == view,
{
}

impl AffineView<DomainId> {
    /// The domain of the inner variable in predicates: the description is
    /// that of the domain in the store, which the view does not change.
    pub fn describe_domain(&self, assignment: &AssignmentsInteger) -> (r: Vec<Predicate>)
        requires
            assignment.wf(),
            assignment@.is_valid_domain(self.inner),
        ensures
            r@ == assignment@.domain_description(self.inner),
    {
        self.inner.describe_domain(assignment)
    }

    /// `scale * lb(x) + offset` for a non-negative scale, and
    /// `scale * ub(x) + offset` for a negative one.
    pub open spec fn spec_lower_bound(self, s: AssignmentsView) -> int {
        if self.scale < 0 {
            self.spec_map(s.upper_bound(self.inner))
        } else {
            self.spec_map(s.lower_bound(self.inner))
        }
    }

    /// `scale * ub(x) + offset` for a non-negative scale, and
    /// `scale * lb(x) + offset` for a negative one.
    pub open spec fn spec_upper_bound(self, s: AssignmentsView) -> int {
        if self.scale < 0 {
            self.spec_map(s.lower_bound(self.inner))
        } else {
            self.spec_map(s.upper_bound(self.inner))
        }
    }

    /// The lower bound of the view after the first `n` trail entries.
    pub open spec fn spec_lower_bound_at(self, s: AssignmentsView, n: nat) -> int {
        if self.scale < 0 {
            self.spec_map(s.upper_bound_at(self.inner, n))
        } else {
            self.spec_map(s.lower_bound_at(self.inner, n))
        }
    }

    /// The upper bound of the view after the first `n` trail entries.
    pub open spec fn spec_upper_bound_at(self, s: AssignmentsView, n: nat) -> int {
        if self.scale < 0 {
            self.spec_map(s.lower_bound_at(self.inner, n))
        } else {
            self.spec_map(s.upper_bound_at(self.inner, n))
        }
    }

    /// The view can take `value` when `scale` divides `value - offset` and
    /// the quotient is in the inner domain.
    pub open spec fn spec_contains(self, s: AssignmentsView, value: int) -> bool {
        self.spec_preimage(value) is Some && s.contains(self.inner, self.spec_preimage(value)->0)
    }

    /// `set_lower_bound` as a function: the inverted value, rounded up, goes
    /// to the inner lower bound, or to the inner upper bound where the scale
    /// is negative.
    pub open spec fn spec_set_lower_bound(self, s: AssignmentsView, value: int, reason: Option<ReasonRef>) -> (
        AssignmentsView,
        bool,
    ) {
        let inverted = self.spec_invert(value, Rounding::Up);
        if self.scale >= 0 {
            tighten_lower_bound_to(s, self.inner, inverted, reason)
        } else {
            tighten_upper_bound_to(s, self.inner, inverted, reason)
        }
    }

    /// `set_upper_bound` as a function: the inverted value, rounded down,
    /// goes to the inner upper bound, or to the inner lower bound where the
    /// scale is negative.
    pub open spec fn spec_set_upper_bound(self, s: AssignmentsView, value: int, reason: Option<ReasonRef>) -> (
        AssignmentsView,
        bool,
    ) {
        let inverted = self.spec_invert(value, Rounding::Down);
        if self.scale >= 0 {
            tighten_upper_bound_to(s, self.inner, inverted, reason)
        } else {
            tighten_lower_bound_to(s, self.inner, inverted, reason)
        }
    }

    /// `remove` as a function: a value that the view cannot take is left
    /// alone.
    pub open spec fn spec_remove(self, s: AssignmentsView, value: int, reason: Option<ReasonRef>) -> (
        AssignmentsView,
        bool,
    ) {
        match self.spec_preimage(value) {
            Some(inner_value) => if i32::MIN <= inner_value <= i32::MAX {
                s.remove_value(self.inner, inner_value as i32, reason)
            } else {
                (s, true)
            },
            None => (s, true),
        }
    }

    pub fn lower_bound(&self, assignment: &AssignmentsInteger) -> (r: i32)
        requires
            assignment.wf(),
            assignment@.is_valid_domain(self.inner),
            i32::MIN <= self.spec_lower_bound(assignment@) <= i32::MAX,
        ensures
            r == self.spec_lower_bound(assignment@),
    {
        if self.scale < 0 {
            self.map(assignment.get_upper_bound(self.inner)) as i32
        } else {
            self.map(assignment.get_lower_bound(self.inner)) as i32
        }
    }

    pub fn upper_bound(&self, assignment: &AssignmentsInteger) -> (r: i32)
        requires
            assignment.wf(),
            assignment@.is_valid_domain(self.inner),
            i32::MIN <= self.spec_upper_bound(assignment@) <= i32::MAX,
        ensures
            r == self.spec_upper_bound(assignment@),
    {
        if self.scale < 0 {
            self.map(assignment.get_lower_bound(self.inner)) as i32
        } else {
            self.map(assignment.get_upper_bound(self.inner)) as i32
        }
    }

    /// The lower bound of the view immediately after trail entry
    /// `trail_position`, or now where the trail ends before that position.
    pub fn lower_bound_at_trail_position(&self, assignment: &AssignmentsInteger, trail_position: usize) -> (r:
        i32)
        requires
            assignment.wf(),
            assignment@.is_valid_domain(self.inner),
            i32::MIN <= self.spec_lower_bound_at(assignment@, assignment@.entries_up_to(trail_position)) <= i32::MAX,
        ensures
            r == self.spec_lower_bound_at(assignment@, assignment@.entries_up_to(trail_position)),
    {
        if self.scale < 0 {
            self.map(assignment.get_upper_bound_at_trail_position(self.inner, trail_position)) as i32
        } else {
            self.map(assignment.get_lower_bound_at_trail_position(self.inner, trail_position)) as i32
        }
    }

    /// The upper bound of the view immediately after trail entry
    /// `trail_position`, or now where the trail ends before that position.
    pub fn upper_bound_at_trail_position(&self, assignment: &AssignmentsInteger, trail_position: usize) -> (r:
        i32)
        requires
            assignment.wf(),
            assignment@.is_valid_domain(self.inner),
            i32::MIN <= self.spec_upper_bound_at(assignment@, assignment@.entries_up_to(trail_position)) <= i32::MAX,
        ensures
            r == self.spec_upper_bound_at(assignment@, assignment@.entries_up_to(trail_position)),
    {
        if self.scale < 0 {
            self.map(assignment.get_lower_bound_at_trail_position(self.inner, trail_position)) as i32
        } else {
            self.map(assignment.get_upper_bound_at_trail_position(self.inner, trail_position)) as i32
        }
    }

    pub fn contains(&self, assignment: &AssignmentsInteger, value: i32) -> (r: bool)
        requires
            assignment.wf(),
            assignment@.is_valid_domain(self.inner),
            self.scale != 0,
        ensures
            r == self.spec_contains(assignment@, value as int),
    {
        match self.preimage(value) {
            Some(inner_value) => assignment.is_value_in_domain(self.inner, inner_value),
            None => {
                proof {
                    assignment.lemma_view_wf();
                    assert(assignment@.state(self.inner).consistent());
                }
                false
            },
        }
    }

    pub fn remove(&self, assignment: &mut AssignmentsInteger, value: i32, reason: Option<ReasonRef>) -> (r:
        Result<(), EmptyDomain>)
        requires
            old(assignment).wf(),
            old(assignment)@.is_valid_domain(self.inner),
            self.scale != 0,
        ensures
            final(assignment).wf(),
            (final(assignment)@, r is Ok) == self.spec_remove(old(assignment)@, value as int, reason),
    {
        match self.preimage(value) {
            Some(inner_value) => assignment.remove_value_from_domain(self.inner, inner_value, reason),
            None => Ok(()),
        }
    }

    pub fn set_lower_bound(
        &self,
        assignment: &mut AssignmentsInteger,
        value: i32,
        reason: Option<ReasonRef>,
    ) -> (r: Result<(), EmptyDomain>)
        requires
            old(assignment).wf(),
            old(assignment)@.is_valid_domain(self.inner),
            self.scale != 0,
        ensures
            final(assignment).wf(),
            (final(assignment)@, r is Ok) == self.spec_set_lower_bound(
                old(assignment)@,
                value as int,
                reason,
            ),
    {
        let inverted = self.invert(value, Rounding::Up);
        if self.scale >= 0 {
            tighten_lower_bound_wide(assignment, self.inner, inverted, reason)
        } else {
            tighten_upper_bound_wide(assignment, self.inner, inverted, reason)
        }
    }

    pub fn set_upper_bound(
        &self,
        assignment: &mut AssignmentsInteger,
        value: i32,
        reason: Option<ReasonRef>,
    ) -> (r: Result<(), EmptyDomain>)
        requires
            old(assignment).wf(),
            old(assignment)@.is_valid_domain(self.inner),
            self.scale != 0,
        ensures
            final(assignment).wf(),
            (final(assignment)@, r is Ok) == self.spec_set_upper_bound(
                old(assignment)@,
                value as int,
                reason,
            ),
    {
        let inverted = self.invert(value, Rounding::Down);
        if self.scale >= 0 {
            tighten_upper_bound_wide(assignment, self.inner, inverted, reason)
        } else {
            tighten_lower_bound_wide(assignment, self.inner, inverted, reason)
        }
    }

    /// `[self >= bound]` as a predicate on the inner variable.
    pub fn lower_bound_predicate(&self, bound: i32) -> (r: Predicate)
        requires
            self.scale != 0,
        ensures
            r == self.spec_bound_predicate(
                self.spec_invert(bound as int, Rounding::Up),
                self.scale >= 0,
            ),
    {
        let inverted_bound = self.invert(bound, Rounding::Up);
        if self.scale < 0 {
            upper_bound_predicate_wide(self.inner, inverted_bound)
        } else {
            lower_bound_predicate_wide(self.inner, inverted_bound)
        }
    }

    /// `[self <= bound]` as a predicate on the inner variable.
    pub fn upper_bound_predicate(&self, bound: i32) -> (r: Predicate)
        requires
            self.scale != 0,
        ensures
            r == self.spec_bound_predicate(
                self.spec_invert(bound as int, Rounding::Down),
                self.scale < 0,
            ),
    {
        let inverted_bound = self.invert(bound, Rounding::Down);
        if self.scale < 0 {
            lower_bound_predicate_wide(self.inner, inverted_bound)
        } else {
            upper_bound_predicate_wide(self.inner, inverted_bound)
        }
    }

    /// The bound predicate on the inner variable for a value that may lie
    /// outside `i32`, where the predicate is one of the constants.
    pub open spec fn spec_bound_predicate(self, inverted: int, lower: bool) -> Predicate {
        if lower {
            if inverted > i32::MAX {
                Predicate::False
            } else if inverted < i32::MIN {
                Predicate::True
            } else {
                Predicate::LowerBound { domain_id: self.inner, lower_bound: inverted as i32 }
            }
        } else {
            if inverted < i32::MIN {
                Predicate::False
            } else if inverted > i32::MAX {
                Predicate::True
            } else {
                Predicate::UpperBound { domain_id: self.inner, upper_bound: inverted as i32 }
            }
        }
    }

    /// `[self == bound]` as a predicate on the inner variable: `False` where
    /// the view cannot take the value.
    pub fn equality_predicate(&self, bound: i32) -> (r: Predicate)
        requires
            self.scale != 0,
        ensures
            r == (match self.spec_preimage(bound as int) {
                Some(value) => if i32::MIN <= value <= i32::MAX {
                    Predicate::Equal { domain_id: self.inner, equality_constant: value as i32 }
                } else {
                    Predicate::False
                },
                None => Predicate::False,
            }),
    {
        match self.preimage(bound) {
            Some(value) => Predicate::Equal { domain_id: self.inner, equality_constant: value },
            None => Predicate::False,
        }
    }

    /// `[self != bound]` as a predicate on the inner variable: `True` where
    /// the view cannot take the value.
    pub fn disequality_predicate(&self, bound: i32) -> (r: Predicate)
        requires
            self.scale != 0,
        ensures
            r == (match self.spec_preimage(bound as int) {
                Some(value) => if i32::MIN <= value <= i32::MAX {
                    Predicate::NotEqual { domain_id: self.inner, not_equal_constant: value as i32 }
                } else {
                    Predicate::True
                },
                None => Predicate::True,
            }),
    {
        match self.preimage(bound) {
            Some(value) => Predicate::NotEqual { domain_id: self.inner, not_equal_constant: value },
            None => Predicate::True,
        }
    }
}

fn lower_bound_predicate_wide(x: DomainId, value: i64) -> (r: Predicate)
    ensures
        r == (AffineView { inner: x, scale: 1, offset: 0 }).spec_bound_predicate(value as int, true),
{
    if value > i32::MAX as i64 {
        Predicate::False
    } else if value < i32::MIN as i64 {
        Predicate::True
    } else {
        Predicate::LowerBound { domain_id: x, lower_bound: value as i32 }
    }
}

fn upper_bound_predicate_wide(x: DomainId, value: i64) -> (r: Predicate)
    ensures
        r == (AffineView { inner: x, scale: 1, offset: 0 }).spec_bound_predicate(value as int, false),
{
    if value < i32::MIN as i64 {
        Predicate::False
    } else if value > i32::MAX as i64 {
        Predicate::True
    } else {
        Predicate::UpperBound { domain_id: x, upper_bound: value as i32 }
    }
}

/// Tightens the lower bound of `x` to a value that may lie outside `i32`.
pub fn tighten_lower_bound_wide(
    assignment: &mut AssignmentsInteger,
    x: DomainId,
    value: i64,
    reason: Option<ReasonRef>,
) -> (r: Result<(), EmptyDomain>)
    requires
        old(assignment).wf(),
        old(assignment)@.is_valid_domain(x),
    ensures
        final(assignment).wf(),
        (final(assignment)@, r is Ok) == tighten_lower_bound_to(
            old(assignment)@,
            x,
            value as int,
            reason,
        ),
{
    if value > i32::MAX as i64 {
        Err(EmptyDomain)
    } else if value < i32::MIN as i64 {
        Ok(())
    } else {
        assignment.tighten_lower_bound(x, value as i32, reason)
    }
}

/// Tightens the upper bound of `x` to a value that may lie outside `i32`.
pub fn tighten_upper_bound_wide(
    assignment: &mut AssignmentsInteger,
    x: DomainId,
    value: i64,
    reason: Option<ReasonRef>,
) -> (r: Result<(), EmptyDomain>)
    requires
        old(assignment).wf(),
        old(assignment)@.is_valid_domain(x),
    ensures
        final(assignment).wf(),
        (final(assignment)@, r is Ok) == tighten_upper_bound_to(
            old(assignment)@,
            x,
            value as int,
            reason,
        ),
{
    if value < i32::MIN as i64 {
        Err(EmptyDomain)
    } else if value > i32::MAX as i64 {
        Ok(())
    } else {
        assignment.tighten_upper_bound(x, value as i32, reason)
    }
}

impl DomainId {
    /// Registers `propagator_var` for `events` on this domain.
    pub fn watch_all(&self, watchers: &mut WatchListCP, propagator_var: PropagatorVarId, events: DomainEvents)
        requires
            (self.id as int) < old(watchers).num_domains(),
        ensures
            final(watchers).num_domains() == old(watchers).num_domains(),
            forall|y: DomainId, event: IntDomainEvent|
                (y.id as int) < old(watchers).num_domains() ==> #[trigger] final(watchers).watchers_of(
                    y,
                    event,
                ) == if y == *self && events.has(event) {
                    old(watchers).watchers_of(y, event).push(propagator_var)
                } else {
                    old(watchers).watchers_of(y, event)
                },
    {
        watchers.watch_all(*self, events, propagator_var);
    }

    /// What an event on this domain means for it: the event itself.
    pub fn unpack_event(&self, event: OpaqueDomainEvent) -> (r: IntDomainEvent)
        ensures
            r == event.0,
    {
        event.unwrap()
    }
}

impl<Inner> AffineView<Inner> {
    /// The events on the inner variable that amount to `events` on the view:
    /// with a negative scale, a watch on one bound alone is a watch on the
    /// other bound of the inner variable.
    pub open spec fn spec_inner_events(self, events: DomainEvents) -> DomainEvents {
        if self.scale < 0 && events.lower_bound != events.upper_bound {
            events.spec_swapped_bounds()
        } else {
            events
        }
    }

    /// What an event on the inner variable means for the view: with a
    /// negative scale the two bound events change places.
    pub open spec fn spec_unpack_event(self, event: IntDomainEvent) -> IntDomainEvent {
        if self.scale < 0 {
            match event {
                IntDomainEvent::LowerBound => IntDomainEvent::UpperBound,
                IntDomainEvent::UpperBound => IntDomainEvent::LowerBound,
                other => other,
            }
        } else {
            event
        }
    }

    /// The events on the inner variable that amount to `events` on the view.
    pub fn inner_events(&self, events: DomainEvents) -> (r: DomainEvents)
        ensures
            r == self.spec_inner_events(events),
    {
        if self.scale < 0 && events.lower_bound != events.upper_bound {
            events.swapped_bounds()
        } else {
            events
        }
    }
}

impl AffineView<DomainId> {
    /// Registers `propagator_var` for `events` on the view, which is to
    /// register it on the inner variable for the events that amount to them.
    pub fn watch_all(&self, watchers: &mut WatchListCP, propagator_var: PropagatorVarId, events: DomainEvents)
        requires
            (self.inner.id as int) < old(watchers).num_domains(),
        ensures
            final(watchers).num_domains() == old(watchers).num_domains(),
            forall|y: DomainId, event: IntDomainEvent|
                (y.id as int) < old(watchers).num_domains() ==> #[trigger] final(watchers).watchers_of(
                    y,
                    event,
                ) == if y == self.inner && self.spec_inner_events(events).has(event) {
                    old(watchers).watchers_of(y, event).push(propagator_var)
                } else {
                    old(watchers).watchers_of(y, event)
                },
    {
        let inner_events = self.inner_events(events);
        self.inner.watch_all(watchers, propagator_var, inner_events);
    }

    /// What an event on the inner variable means for the view.
    pub fn unpack_event(&self, event: OpaqueDomainEvent) -> (r: IntDomainEvent)
        ensures
            r == self.spec_unpack_event(event.0),
    {
        if self.scale < 0 {
            match self.inner.unpack_event(event) {
                IntDomainEvent::LowerBound => IntDomainEvent::UpperBound,
                IntDomainEvent::UpperBound => IntDomainEvent::LowerBound,
                other => other,
            }
        } else {
            self.inner.unpack_event(event)
        }
    }
}

/// A view with a negative scale that is asked to watch the lower bound
/// watches the upper bound of its inner variable, and none else; and the
/// other way round. The other events pass unchanged.
pub proof fn lemma_negative_view_swaps_bound_watches<Inner>(view: AffineView<Inner>, events: DomainEvents)
    requires
        view.scale < 0,
    ensures
        events.lower_bound && !events.upper_bound ==> view.spec_inner_events(events).upper_bound
            && !view.spec_inner_events(events).lower_bound,
        events.upper_bound && !events.lower_bound ==> view.spec_inner_events(events).lower_bound
            && !view.spec_inner_events(events).upper_bound,
        view.spec_inner_events(events).assign == events.assign,
        view.spec_inner_events(events).hole == events.hole,
{
}

impl From<DomainId> for AffineView<DomainId> {
    /// The view `1 * value + 0`.
    fn from(value: DomainId) -> (r: Self) {
        AffineView::new(value, 1, 0)
    }
}

impl vstd::std_specs::convert::FromSpecImpl<DomainId> for AffineView<DomainId> {
    open spec fn obeys_from_spec() -> bool {
        true
    }

    open spec fn from_spec(value: DomainId) -> Self {
        AffineView { inner: value, scale: 1, offset: 0 }
    }
}

} // verus!
