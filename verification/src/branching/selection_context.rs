//! What a branching strategy may look at.

use vstd::prelude::*;
use crate::basic_types::domain_id::DomainId;
use crate::engine::assignments_integer::AssignmentsInteger;
use crate::engine::assignments_view::AssignmentsView;

verus! {

/// A read-only look at the domains.
pub struct SelectionContext<'a> {
    pub assignments_integer: &'a AssignmentsInteger,
}

/// The domain of variable `i` of a store to try a strategy on: the one
/// given for it, unless none is given or it is an empty range; then
/// `0..=10`.
pub open spec fn trial_bounds(domains: Option<Vec<(i32, i32)>>, i: int) -> (i32, i32) {
    match domains {
        Some(given) => if i < given@.len() && given@[i].0 <= given@[i].1 {
            given@[i]
        } else {
            (0i32, 10i32)
        },
        None => (0i32, 10i32),
    }
}

impl<'a> SelectionContext<'a> {
    pub open spec fn view(&self) -> AssignmentsView {
        self.assignments_integer@
    }

    pub open spec fn wf(&self) -> bool {
        self.assignments_integer.wf()
    }

    pub fn new(assignments_integer: &'a AssignmentsInteger) -> (r: SelectionContext<'a>)
        ensures
            r.assignments_integer == assignments_integer,
    {
        SelectionContext { assignments_integer }
    }

    /// A store of `num_integer_variables` variables to try a strategy on:
    /// variable `i` has the domain `domains[i]` where that is given and is
    /// no empty range, and the domain `0..=10` otherwise.
    pub fn create_for_testing(num_integer_variables: u32, domains: Option<Vec<(i32, i32)>>) -> (r:
        AssignmentsInteger)
        ensures
            r.wf(),
            r@.num_domains() == num_integer_variables,
            r@.trail.len() == 0,
            r@.decision_level == 0,
            forall|i: int|
                0 <= i < num_integer_variables ==> #[trigger] r@.initial_bounds[i] == trial_bounds(
                    domains,
                    i,
                ),
    {
        let mut assignments_integer = AssignmentsInteger::new();
        let mut i: u32 = 0;
        while i < num_integer_variables
            invariant
                assignments_integer.wf(),
                assignments_integer@.num_domains() == i,
                assignments_integer@.trail.len() == 0,
                assignments_integer@.decision_level == 0,
                i <= num_integer_variables,
                forall|k: int|
                    0 <= k < i ==> #[trigger] assignments_integer@.initial_bounds[k] == trial_bounds(
                        domains,
                        k,
                    ),
            decreases num_integer_variables - i,
        {
            let bounds: (i32, i32) = match &domains {
                Some(given) => if (i as usize) < given.len() && given[i as usize].0 <= given[i as usize].1 {
                    given[i as usize]
                } else {
                    (0, 10)
                },
                None => (0, 10),
            };
            let id = assignments_integer.grow(bounds.0, bounds.1);
            i += 1;
        }
        assignments_integer
    }

    pub fn lower_bound(&self, x: DomainId) -> (r: i32)
        requires
            self.wf(),
            self.view().is_valid_domain(x),
        ensures
            r == self.view().lower_bound(x),
    {
        self.assignments_integer.get_lower_bound(x)
    }

    pub fn upper_bound(&self, x: DomainId) -> (r: i32)
        requires
            self.wf(),
            self.view().is_valid_domain(x),
        ensures
            r == self.view().upper_bound(x),
    {
        self.assignments_integer.get_upper_bound(x)
    }

    pub fn contains(&self, x: DomainId, value: i32) -> (r: bool)
        requires
            self.wf(),
            self.view().is_valid_domain(x),
        ensures
            r == self.view().contains(x, value as int),
    {
        self.assignments_integer.is_value_in_domain(x, value)
    }

    pub fn is_integer_fixed(&self, x: DomainId) -> (r: bool)
        requires
            self.wf(),
            self.view().is_valid_domain(x),
        ensures
            r == (self.view().lower_bound(x) == self.view().upper_bound(x)),
    {
        self.assignments_integer.is_domain_assigned(x)
    }

    /// The variables of the store, in the order of their creation.
    pub fn get_domains(&self) -> (r: Vec<DomainId>)
        requires
            self.wf(),
        ensures
            r@.len() == self.view().num_domains(),
            forall|i: int| 0 <= i < r@.len() ==> (#[trigger] r@[i]).id == i,
    {
        self.assignments_integer.get_domains()
    }
}

} // verus!
