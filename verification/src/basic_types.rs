//! Identifiers, predicates and the other small values the solver is built on.

pub mod arithmetic;
pub mod domain_events;
pub mod domain_id;
pub mod int_var;
pub mod linear_less_or_equal;
pub mod linear_terms;
pub mod predicate;
pub mod stored_conflict_info;
pub mod text;
pub mod variables;
