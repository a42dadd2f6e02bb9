//! The clausal side: the header of a clause, and when to restart.

pub mod clause_inlined;
pub mod restart_strategy;
