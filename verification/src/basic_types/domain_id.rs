use vstd::prelude::*;

verus! {

/// Handle of an integer decision variable. The store hands these out; the
/// number inside is the variable's index in the store.
#[derive(Clone, Copy, Debug, PartialEq, Eq, Hash, Structural)]
pub struct DomainId {
    pub id: u32,
}

impl DomainId {
    pub fn new(id: u32) -> (r: DomainId)
        ensures
            r.id == id,
    {
        DomainId { id }
    }
}

} // verus!
