//! A linear inequality that is evaluated in the current domains unless a
//! trail position is named.

use vstd::prelude::*;
use crate::basic_types::domain_id::DomainId;
use crate::basic_types::linear_less_or_equal::LinearLessOrEqual;
use crate::basic_types::linear_less_or_equal::inequality_text;
use crate::basic_types::linear_less_or_equal::is_first_scale;
use crate::basic_types::linear_terms::lower_bound_sum;
use crate::basic_types::linear_terms::lower_bounds_fit;
use crate::basic_types::linear_terms::mentions;
use crate::basic_types::linear_terms::terms_valid;
use crate::basic_types::linear_terms::terms_wf;
use crate::basic_types::variables::AffineView;
use crate::engine::assignments_integer::AssignmentsInteger;
use crate::engine::assignments_view::AssignmentsView;
use crate::engine::propagation::propagator::Propagator;
use crate::engine::propagation::store::PropagatorStore;
use crate::engine::propagator_queue::PropagatorId;

verus! {

/// The inequality `lhs <= rhs`.
#[derive(Default, Debug, Clone)]
pub struct LinearConstraint {
    pub lhs: Vec<(DomainId, i32)>,
    pub rhs: i32,
}

/// The number of trail entries after which `trail_position` asks: all of
/// them for `None`; for `Some`, those up to and with the named one, and all
/// of them where the trail ends before it.
pub open spec fn entries_at(s: AssignmentsView, trail_position: Option<usize>) -> nat {
    match trail_position {
        Some(position) => s.entries_up_to(position),
        None => s.trail.len(),
    }
}

impl LinearConstraint {
    /// The inequality as a text, written as a `LinearLessOrEqual` is.
    pub fn to_text(&self) -> (r: String)
        ensures
            r@ == inequality_text(self.lhs@, self.rhs as int),
    {
        self.to_inequality().to_text()
    }

    /// The same inequality as a `LinearLessOrEqual`.
    pub fn to_inequality(&self) -> (r: LinearLessOrEqual)
        ensures
            r.lhs@ == self.lhs@,
            r.rhs == self.rhs,
    {
        let mut terms: Vec<(DomainId, i32)> = Vec::new();
        let mut i: usize = 0;
        while i < self.lhs.len()
            invariant
                i <= self.lhs@.len(),
                terms@ == self.lhs@.take(i as int),
            decreases self.lhs.len() - i,
        {
            terms.push(self.lhs[i]);
            proof {
                assert(self.lhs@.take(i + 1) =~= self.lhs@.take(i as int).push(self.lhs@[i as int]));
            }
            i += 1;
        }
        proof {
            assert(self.lhs@.take(self.lhs@.len() as int) =~= self.lhs@);
        }
        LinearLessOrEqual::new(terms, self.rhs)
    }

    pub fn contains_variable(&self, variable: DomainId) -> (r: bool)
        ensures
            r == mentions(self.lhs@, variable),
    {
        self.to_inequality().contains_variable(variable)
    }

    /// The coefficient in the first term of `variable`.
    pub fn find_variable_scale(&self, variable: DomainId) -> (r: Option<i32>)
        ensures
            is_first_scale(self.lhs@, variable, r),
    {
        self.to_inequality().find_variable_scale(variable)
    }

    /// The terms as views `scale * variable`.
    pub fn to_vars(&self) -> (r: Vec<AffineView<DomainId>>)
        ensures
            r@.len() == self.lhs@.len(),
            forall|i: int|
                0 <= i < self.lhs@.len() ==> #[trigger] r@[i] == (AffineView {
                    inner: self.lhs@[i].0,
                    scale: self.lhs@[i].1,
                    offset: 0,
                }),
    {
        self.to_inequality().to_vars()
    }

    /// The number of trail entries after which `trail_position` asks.
    fn entries(assignments: &AssignmentsInteger, trail_position: Option<usize>) -> (r: usize)
        ensures
            r == entries_at(assignments@, trail_position),
            r <= assignments@.trail.len(),
    {
        let length = assignments.num_trail_entries();
        match trail_position {
            Some(position) => assignments.num_entries_up_to(position),
            None => length,
        }
    }

    /// The least value of the left-hand side.
    pub fn lb_lhs(&self, assignments: &AssignmentsInteger, trail_position: Option<usize>) -> (r: i64)
        requires
            assignments.wf(),
            terms_wf(self.lhs@),
            terms_valid(self.lhs@, assignments@),
            lower_bounds_fit(self.lhs@, assignments@, entries_at(assignments@, trail_position)),
        ensures
            r == lower_bound_sum(self.lhs@, assignments@, entries_at(assignments@, trail_position)),
    {
        let n = Self::entries(assignments, trail_position);
        self.to_inequality().lhs.lb_after(assignments, n)
    }

    /// `rhs` minus the least value of the left-hand side.
    pub fn slack(&self, assignments: &AssignmentsInteger, trail_position: Option<usize>) -> (r: i64)
        requires
            assignments.wf(),
            terms_wf(self.lhs@),
            terms_valid(self.lhs@, assignments@),
            lower_bounds_fit(self.lhs@, assignments@, entries_at(assignments@, trail_position)),
        ensures
            r == self.rhs - lower_bound_sum(
                self.lhs@,
                assignments@,
                entries_at(assignments@, trail_position),
            ),
    {
        let n = Self::entries(assignments, trail_position);
        self.to_inequality().slack_after(assignments, n)
    }

    /// Whether the inequality is violated whatever values are left.
    pub fn is_conflicting(&self, assignments: &AssignmentsInteger, trail_position: Option<usize>) -> (r:
        bool)
        requires
            assignments.wf(),
            terms_wf(self.lhs@),
            terms_valid(self.lhs@, assignments@),
            lower_bounds_fit(self.lhs@, assignments@, entries_at(assignments@, trail_position)),
        ensures
            r == (self.rhs < lower_bound_sum(
                self.lhs@,
                assignments@,
                entries_at(assignments@, trail_position),
            )),
    {
        let n = Self::entries(assignments, trail_position);
        self.to_inequality().is_conflicting_after(assignments, n)
    }

    /// Whether the inequality removes a value from some domain.
    pub fn is_propagating(&self, assignments: &AssignmentsInteger, trail_position: Option<usize>) -> (r:
        bool)
        requires
            assignments.wf(),
            terms_wf(self.lhs@),
            terms_valid(self.lhs@, assignments@),
            lower_bounds_fit(self.lhs@, assignments@, entries_at(assignments@, trail_position)),
        ensures
            r == LinearLessOrEqual::spec_is_propagating_terms(
                self.lhs@,
                self.rhs as int,
                assignments@,
                entries_at(assignments@, trail_position),
            ),
    {
        let n = Self::entries(assignments, trail_position);
        self.to_inequality().is_propagating_after(assignments, n)
    }
}

/// The constraint of propagator `id` as a `LinearConstraint`: the scales of
/// its variables on the left, and on the right its bound less the offsets
/// of its variables. `None` where there is no such propagator, or where the
/// right-hand side would be no `i32`.
pub fn prop_to_linear_constraint(propagator_store: &PropagatorStore, id: PropagatorId) -> (r: Option<
    LinearConstraint,
>)
    ensures
        r matches Some(constraint) ==> (id.0 as int) < propagator_store.propagators@.len()
            && propagator_store.propagators@[id.0 as int].explanation() is Some && constraint.lhs@
            == propagator_store.propagators@[id.0 as int].explanation()->0.lhs@ && constraint.rhs
            == propagator_store.propagators@[id.0 as int].explanation()->0.rhs,
        r is Some <==> (id.0 as int) < propagator_store.propagators@.len()
            && propagator_store.propagators@[id.0 as int].explanation() is Some,
{
    if (id.0 as usize) >= propagator_store.num_propagators() {
        return None;
    }
    match propagator_store.get(id) {
        Propagator::LinearLessOrEqual(propagator) => {
            let (variables, bound) = propagator.get_linear_constraint();
            let mut lhs: Vec<(DomainId, i32)> = Vec::new();
            let mut offsets: i64 = 0;
            let mut i: usize = 0;
            while i < variables.len()
                invariant
                    i <= variables@.len(),
                    variables@.len() == propagator.inequality.lhs@.len(),
                    forall|k: int|
                        0 <= k < variables@.len() ==> (#[trigger] variables@[k]).id
                            == propagator.inequality.lhs@[k].0 && variables@[k].scale
                            == propagator.inequality.lhs@[k].1 && variables@[k].offset == 0,
                    lhs@ == propagator.inequality.lhs@.take(i as int),
                    offsets == 0,
                decreases variables.len() - i,
            {
                let variable = variables[i];
                lhs.push((variable.id, variable.scale));
                offsets = offsets + variable.offset as i64;
                proof {
                    assert(propagator.inequality.lhs@.take(i + 1) =~= propagator.inequality.lhs@.take(
                        i as int,
                    ).push(propagator.inequality.lhs@[i as int]));
                }
                i += 1;
            }
            proof {
                assert(propagator.inequality.lhs@.take(propagator.inequality.lhs@.len() as int)
                    =~= propagator.inequality.lhs@);
            }
            let rhs: i64 = bound as i64 - offsets;
            if rhs < i32::MIN as i64 || rhs > i32::MAX as i64 {
                return None;
            }
            Some(LinearConstraint { lhs, rhs: rhs as i32 })
        },
        Propagator::LinearInequalityLiteral(_) => None,
    }
}

} // verus!
