//! A constraint-programming core for integer linear problems: a trailed
//! domain store, affine views, a linear-inequality propagator, and a conflict
//! analysis that learns linear inequalities by cutting planes.

pub mod basic_types;
pub mod branching;
pub mod engine;
pub mod flatzinc;
pub mod propagators;
pub mod solver;
pub mod statistics;
