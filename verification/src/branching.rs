//! Branching: which variable to decide on next.

pub mod max_regret;
pub mod selection_context;
pub mod variable_selector;
