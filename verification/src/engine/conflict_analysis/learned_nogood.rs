//! What conflict analysis hands back.

use vstd::prelude::*;
use crate::basic_types::linear_less_or_equal::LinearLessOrEqual;
use crate::basic_types::predicate::Predicate;

verus! {

/// A learned linear inequality and the level to backjump to.
#[derive(Debug)]
pub struct LearnedConstraint {
    pub constraint: LinearLessOrEqual,
    pub backjump_level: u32,
}

/// A learned nogood, a conjunction of predicates that cannot all hold, and
/// the level to backjump to.
#[derive(Debug)]
pub struct LearnedNogood {
    pub predicates: Vec<Predicate>,
    pub backjump_level: u32,
}

/// The nogood that says the constraints contradict each other: the constant
/// `False` alone, with the root level to backjump to.
pub open spec fn is_contradiction_signal(nogood: &LearnedNogood) -> bool {
    nogood.predicates@ == seq![Predicate::False] && nogood.backjump_level == 0
}

#[derive(Debug)]
pub enum ConflictResolveResult {
    Nogood(LearnedNogood),
    Constraint(LearnedConstraint),
}

} // verus!
