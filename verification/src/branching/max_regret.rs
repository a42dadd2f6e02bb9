//! The strategy that picks the variable whose two smallest values lie
//! furthest apart.

use vstd::prelude::*;
use crate::basic_types::domain_id::DomainId;
use crate::branching::selection_context::SelectionContext;
use crate::branching::variable_selector::VariableSelector;
use crate::engine::assignments_view::AssignmentsView;
use crate::engine::assignments_view::first_free_at_or_above;
use crate::engine::assignments_view::lemma_contains_iff_no_hole;
use crate::engine::assignments_view::lemma_first_free_at_or_above;

verus! {

/// Selects the variable with the greatest difference between the two
/// smallest values of its domain. In the worst case it looks at every
/// variable and at every value between its bounds.
#[derive(Debug)]
pub struct MaxRegret<Var> {
    pub variables: Vec<Var>,
}

/// The second smallest value of the domain of `x`, for a variable that is
/// not fixed.
pub open spec fn second_smallest(s: AssignmentsView, x: DomainId) -> int {
    first_free_at_or_above(s.state(x).holes, s.lower_bound(x) + 1, s.upper_bound(x))
}

/// The difference between the two smallest values of the domain of `x`.
pub open spec fn regret(s: AssignmentsView, x: DomainId) -> int {
    second_smallest(s, x) - s.lower_bound(x)
}

/// Whether `x` is not fixed.
pub open spec fn is_open(s: AssignmentsView, x: DomainId) -> bool {
    s.lower_bound(x) < s.upper_bound(x)
}

impl<Var: Copy> MaxRegret<Var> {
    pub fn new(variables: &[Var]) -> (r: Self)
        ensures
            r.variables@ == variables@,
    {
        let mut copied: Vec<Var> = Vec::new();
        let mut i: usize = 0;
        while i < variables.len()
            invariant
                i <= variables@.len(),
                copied@ == variables@.take(i as int),
            decreases variables.len() - i,
        {
            copied.push(variables[i]);
            proof {
                assert(variables@.take(i + 1) =~= variables@.take(i as int).push(variables@[i as int]));
            }
            i += 1;
        }
        proof {
            assert(variables@.take(variables@.len() as int) =~= variables@);
        }
        MaxRegret { variables: copied }
    }
}

/// The difference between the two smallest values of the domain of `x`.
fn regret_of(context: &SelectionContext, x: DomainId) -> (r: i64)
    requires
        context.wf(),
        context.view().is_valid_domain(x),
        is_open(context.view(), x),
    ensures
        r == regret(context.view(), x),
        r > 0,
{
    let smallest_value = context.lower_bound(x);
    let upper = context.upper_bound(x);
    let ghost state = context.view().state(x);
    proof {
        context.assignments_integer.lemma_view_wf();
        assert(state.consistent());
        lemma_contains_iff_no_hole(state, upper);
        lemma_first_free_at_or_above(state.holes, smallest_value + 1, upper as int);
    }
    let mut candidate: i32 = smallest_value + 1;
    while candidate < upper && !context.contains(x, candidate)
        invariant
            context.wf(),
            context.view().is_valid_domain(x),
            state == context.view().state(x),
            smallest_value == state.lower_bound,
            upper == state.upper_bound,
            smallest_value < candidate <= upper,
            first_free_at_or_above(state.holes, smallest_value + 1, upper as int)
                == first_free_at_or_above(state.holes, candidate as int, upper as int),
        decreases upper - candidate,
    {
        proof {
            lemma_contains_iff_no_hole(state, candidate);
        }
        candidate += 1;
    }
    proof {
        lemma_contains_iff_no_hole(state, candidate);
    }
    candidate as i64 - smallest_value as i64
}

impl VariableSelector for MaxRegret<DomainId> {
    open spec fn valid_for(&self, s: AssignmentsView) -> bool {
        forall|i: int| 0 <= i < self.variables@.len() ==> s.is_valid_domain(#[trigger] self.variables@[i])
    }

    proof fn lemma_valid_for_any_store_of_that_size(&self, s: AssignmentsView, t: AssignmentsView) {
        assert forall|i: int| 0 <= i < self.variables@.len() implies t.is_valid_domain(
            #[trigger] self.variables@[i],
        ) by {
            assert(s.is_valid_domain(self.variables@[i]));
        }
    }

    /// Among its variables that are not fixed, picks the first of those
    /// with the greatest regret; none where all are fixed.
    fn select_variable(&mut self, context: &SelectionContext) -> (r: Option<DomainId>)
        ensures
            final(self).variables@ == old(self).variables@,
            r is None <==> forall|i: int|
                0 <= i < old(self).variables@.len() ==> !is_open(
                    context.view(),
                    #[trigger] old(self).variables@[i],
                ),
            r matches Some(x) ==> exists|i: int|
                0 <= i < old(self).variables@.len() && #[trigger] old(self).variables@[i] == x
                    && is_open(context.view(), x) && (forall|k: int|
                    0 <= k < old(self).variables@.len() && is_open(
                        context.view(),
                        #[trigger] old(self).variables@[k],
                    ) ==> regret(context.view(), old(self).variables@[k]) <= regret(context.view(), x))
                    && (forall|k: int|
                    0 <= k < i && is_open(context.view(), #[trigger] old(self).variables@[k]) ==> regret(
                        context.view(),
                        old(self).variables@[k],
                    ) < regret(context.view(), x)),
    {
        let mut best: Option<DomainId> = None;
        let mut best_regret: i64 = 0;
        let ghost mut best_index: int = 0;
        let mut i: usize = 0;
        while i < self.variables.len()
            invariant
                context.wf(),
                self.valid_for(context.view()),
                self.variables@ == old(self).variables@,
                i <= self.variables@.len(),
                best is None <==> forall|k: int|
                    0 <= k < i ==> !is_open(context.view(), #[trigger] self.variables@[k]),
                best matches Some(x) ==> 0 <= best_index < i && self.variables@[best_index] == x
                    && is_open(context.view(), x) && best_regret == regret(context.view(), x)
                    && (forall|k: int|
                    0 <= k < i && is_open(context.view(), #[trigger] self.variables@[k]) ==> regret(
                        context.view(),
                        self.variables@[k],
                    ) <= best_regret) && (forall|k: int|
                    0 <= k < best_index && is_open(context.view(), #[trigger] self.variables@[k])
                        ==> regret(context.view(), self.variables@[k]) < best_regret),
            decreases self.variables.len() - i,
        {
            let variable = self.variables[i];
            assert(context.view().is_valid_domain(self.variables@[i as int]));
            proof {
                context.assignments_integer.lemma_view_wf();
                assert(context.view().state_at(variable, context.view().trail.len()).consistent());
            }
            if !context.is_integer_fixed(variable) {
                let value = regret_of(context, variable);
                if best.is_none() || value > best_regret {
                    best = Some(variable);
                    best_regret = value;
                    proof {
                        best_index = i as int;
                    }
                }
            }
            i += 1;
        }
        best
    }
}

} // verus!
