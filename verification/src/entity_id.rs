//! Scene entity identifiers: a compact slot index plus a generation counter.

use vstd::prelude::*;

verus! {

/// Identifies an entity within exactly one scene's namespace.  The `id` is a
/// slot in a fixed-size table; the `generation` distinguishes successive
/// occupants of the slot, so a reused slot never aliases a dead entity.
#[derive(Clone, Copy, PartialEq, Eq, Structural, Debug, Hash)]
pub struct SceneEntityId {
    pub id: u16,
    pub generation: u16,
}

impl SceneEntityId {
    /// The scene's own root entity: slot 0, generation 0, never dies.
    pub open spec fn spec_root() -> SceneEntityId {
        SceneEntityId { id: 0, generation: 0 }
    }

    /// Sentinel id for the viewer's avatar, re-mapped to a renderer-owned entity.
    pub open spec fn spec_player() -> SceneEntityId {
        SceneEntityId { id: 1, generation: 0 }
    }

    /// Sentinel id for the viewer's camera, re-mapped to a renderer-owned entity.
    pub open spec fn spec_camera() -> SceneEntityId {
        SceneEntityId { id: 2, generation: 0 }
    }

    pub fn root() -> (r: SceneEntityId)
        ensures
            r == Self::spec_root(),
    {
        SceneEntityId { id: 0, generation: 0 }
    }

    pub fn player() -> (r: SceneEntityId)
        ensures
            r == Self::spec_player(),
    {
        SceneEntityId { id: 1, generation: 0 }
    }

    pub fn camera() -> (r: SceneEntityId)
        ensures
            r == Self::spec_camera(),
    {
        SceneEntityId { id: 2, generation: 0 }
    }

    pub fn new(id: u16, generation: u16) -> (r: SceneEntityId)
        ensures
            r == (SceneEntityId { id, generation }),
    {
        SceneEntityId { id, generation }
    }

    /// The identifier packed into one integer: slot index in the high half,
    /// generation in the low half.
    pub open spec fn spec_pack(self) -> u32 {
        (self.id * 0x1_0000 + self.generation) as u32
    }

    pub fn pack(self) -> (r: u32)
        ensures
            r == self.spec_pack(),
    {
        (self.id as u32) * 0x1_0000 + (self.generation as u32)
    }

    pub fn unpack(packed: u32) -> (r: SceneEntityId)
        ensures
            r.spec_pack() == packed,
            r == (SceneEntityId { id: (packed / 0x1_0000) as u16, generation: (packed % 0x1_0000) as u16 }),
    {
        SceneEntityId { id: (packed / 0x1_0000) as u16, generation: (packed % 0x1_0000) as u16 }
    }
}

} // verus!
