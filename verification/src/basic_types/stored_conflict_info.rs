//! What is known of a conflict when it is found.

use vstd::prelude::*;
use crate::engine::propagator_queue::PropagatorId;

verus! {

/// The cause of a conflict.
#[derive(Clone, Copy, Debug, PartialEq, Eq)]
pub enum StoredConflictInfo {
    /// The constraint of this propagator cannot hold in the domains.
    Propagator { propagator_id: PropagatorId },
    /// The last trail entry left a variable without values.
    EmptyDomain,
    /// The conflict does not depend on any decision.
    RootLevelConflict,
}

} // verus!
