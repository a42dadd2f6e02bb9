//! Conflict analysis: what to learn from a conflict, and where to backjump.

pub mod conflict_analysis_context;
pub mod conflict_resolver;
pub mod cut;
pub mod explanations;
pub mod intsat_analysis;
pub mod intsat_conflict_resolver;
pub mod learned_nogood;
pub mod no_learning_resolver;
pub mod resolution_resolver;
