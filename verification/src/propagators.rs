//! The propagators: each narrows domains on behalf of one constraint.

pub mod linear_inequality_literal_propagator;
pub mod linear_inequality_literal_rest;
pub mod linear_less_or_equal;
