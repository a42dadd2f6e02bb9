//! Records of what the solver learned.

pub mod learned_constraint_log;
