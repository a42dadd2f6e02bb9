//! The propagators the engine runs, and the store that owns them.

pub mod fixpoint;
pub mod linear_constraint;
pub mod propagator;
pub mod store;
pub mod waking;
