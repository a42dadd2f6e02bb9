//! What a FlatZinc model asks to be printed.

pub mod collect_domains;
pub mod instance;
