//! A view written out as plain numbers.

use vstd::prelude::*;
use crate::basic_types::domain_id::DomainId;

verus! {

/// The variable `scale * id + offset`.
#[derive(Debug, Clone, Copy)]
pub struct FlattenedVariable {
    pub id: DomainId,
    pub scale: i32,
    pub offset: i32,
}

impl FlattenedVariable {
    pub fn new(id: DomainId, scale: i32, offset: i32) -> (r: Self)
        ensures
            r.id == id,
            r.scale == scale,
            r.offset == offset,
    {
        Self { id, scale, offset }
    }
}

} // verus!
