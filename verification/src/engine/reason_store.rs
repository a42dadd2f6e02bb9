//! Where the reasons of propagations are kept, level by level.

use vstd::prelude::*;
use crate::basic_types::predicate::Predicate;
use crate::engine::assignments_view::ReasonRef;
use crate::engine::propagator_queue::PropagatorId;

verus! {

/// Why a predicate was propagated.
#[derive(Debug)]
pub enum Reason {
    /// The predicates that together imply it.
    Conjunction(Vec<Predicate>),
    /// The propagator that inferred it, and can explain it when asked.
    Propagator(PropagatorId),
}

impl Reason {
    /// The propagator the reason refers to, if it refers to one.
    pub open spec fn propagator(&self) -> Option<PropagatorId> {
        match self {
            Reason::Conjunction(_) => None,
            Reason::Propagator(id) => Some(*id),
        }
    }
}

/// The reasons given so far, in the order in which they came, with the
/// number of reasons there were when each decision level began.
pub struct ReasonStore {
    reasons: Vec<Reason>,
    level_starts: Vec<usize>,
}

impl ReasonStore {
    /// The reasons kept.
    pub closed spec fn reasons(&self) -> Seq<Reason> {
        self.reasons@
    }

    /// For each open decision level, how many reasons were kept when it
    /// began.
    pub closed spec fn level_starts(&self) -> Seq<usize> {
        self.level_starts@
    }

    pub fn new() -> (r: ReasonStore)
        ensures
            r.reasons().len() == 0,
            r.level_starts().len() == 0,
    {
        ReasonStore { reasons: Vec::new(), level_starts: Vec::new() }
    }

    /// Keeps `reason` and returns the reference to it.
    pub fn push(&mut self, reason: Reason) -> (r: ReasonRef)
        ensures
            final(self).level_starts() == old(self).level_starts(),
            r.0 == old(self).reasons().len(),
            final(self).reasons() == old(self).reasons().push(reason),
    {
        let index = self.reasons.len();
        self.reasons.push(reason);
        ReasonRef(index)
    }

    /// The propagator behind the reason that `reference` names; `None` where
    /// it names no reason, or one that is a conjunction.
    pub fn get_propagator(&self, reference: ReasonRef) -> (r: Option<PropagatorId>)
        ensures
            r == if (reference.0 as int) < self.reasons().len() {
                self.reasons()[reference.0 as int].propagator()
            } else {
                None
            },
    {
        if reference.0 < self.reasons.len() {
            match &self.reasons[reference.0] {
                Reason::Conjunction(_) => None,
                Reason::Propagator(id) => Some(*id),
            }
        } else {
            None
        }
    }

    /// Marks the boundary of a new decision level.
    pub fn increase_decision_level(&mut self)
        ensures
            final(self).reasons() == old(self).reasons(),
            final(self).level_starts() == old(self).level_starts().push(
                old(self).reasons().len() as usize,
            ),
    {
        self.level_starts.push(self.reasons.len());
    }

    /// Forgets the reasons of the levels above `level`.
    pub fn synchronise(&mut self, level: usize)
        ensures
            level >= old(self).level_starts().len() ==> final(self).reasons() == old(self).reasons()
                && final(self).level_starts() == old(self).level_starts(),
            level < old(self).level_starts().len() ==> final(self).level_starts() == old(self).level_starts().take(level as int) && final(self).reasons() == old(self).reasons().take(
                if old(self).level_starts()[level as int] <= old(self).reasons().len() {
                    old(self).level_starts()[level as int] as int
                } else {
                    old(self).reasons().len() as int
                },
            ),
    {
        if level < self.level_starts.len() {
            let keep = self.level_starts[level];
            self.level_starts.truncate(level);
            if keep <= self.reasons.len() {
                self.reasons.truncate(keep);
            } else {
                proof {
                    assert(self.reasons@.take(self.reasons@.len() as int) =~= self.reasons@);
                }
            }
        }
    }
}

} // verus!
