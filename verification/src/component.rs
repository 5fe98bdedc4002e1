//! Stable identities for component types.

use vstd::prelude::*;

verus! {

/// A stable identity for a component *type* (not an instance). The world
/// keys its storages by this value; callers assign one id per component type
/// and keep it fixed for the life of the world.
#[derive(Copy, Clone, Debug, PartialEq, Eq, Hash, Structural)]
pub struct ComponentTypeIndex {
    pub id: u64,
}

impl ComponentTypeIndex {
    pub fn new(id: u64) -> (r: ComponentTypeIndex)
        ensures
            r.id == id,
    {
        ComponentTypeIndex { id }
    }

    pub open spec fn spec_id(self) -> u64 {
        self.id
    }

    #[verifier::when_used_as_spec(spec_id)]
    pub fn id(self) -> (r: u64)
        ensures
            r == self.id,
    {
        self.id
    }
}

} // verus!
