//! The interface of a strategy that picks the variable to decide on.

use vstd::prelude::*;
use crate::basic_types::domain_id::DomainId;
use crate::branching::selection_context::SelectionContext;
use crate::engine::assignments_view::AssignmentsView;

verus! {

pub trait VariableSelector {
    /// The strategy only knows variables of the store.
    spec fn valid_for(&self, s: AssignmentsView) -> bool;

    /// Whether the strategy fits a store depends on the number of its
    /// variables alone.
    proof fn lemma_valid_for_any_store_of_that_size(&self, s: AssignmentsView, t: AssignmentsView)
        requires
            self.valid_for(s),
            s.num_domains() == t.num_domains(),
        ensures
            self.valid_for(t),
    ;

    /// Picks a variable that is not fixed yet, or none.
    fn select_variable(&mut self, context: &SelectionContext) -> (r: Option<DomainId>)
        requires
            context.wf(),
            old(self).valid_for(context.view()),
        ensures
            final(self).valid_for(context.view()),
            r matches Some(x) ==> context.view().is_valid_domain(x) && context.view().lower_bound(x)
                < context.view().upper_bound(x),
    ;
}

} // verus!
