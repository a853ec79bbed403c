//! The per-scene entity-id table: a fixed-size, generation-checked arena
//! mapping a scene entity id to an owned renderer-side entity handle.

use vstd::prelude::*;

use crate::entity_id::SceneEntityId;

verus! {

/// Number of slots: one per possible `u16` index.
pub open spec fn slot_count() -> int {
    0x1_0000
}

/// What `lookup` returns on a slot sequence: the handle iff the stored
/// generation exactly matches the requested one.
pub open spec fn slots_lookup(s: Seq<(u16, Option<u64>)>, e: SceneEntityId) -> Option<u64> {
    if s[e.id as int].0 == e.generation {
        s[e.id as int].1
    } else {
        None
    }
}

/// What `is_dead` returns on a slot sequence: the stored generation strictly
/// exceeds the requested one.
pub open spec fn slots_is_dead(s: Seq<(u16, Option<u64>)>, e: SceneEntityId) -> bool {
    s[e.id as int].0 > e.generation
}

/// The effect of `associate` on a slot sequence.
pub open spec fn slots_associate(s: Seq<(u16, Option<u64>)>, e: SceneEntityId, handle: u64) -> Seq<(u16, Option<u64>)> {
    s.update(e.id as int, (e.generation, Some(handle)))
}

/// The effect of `kill` on a slot sequence: when the stored generation
/// matches, bump it and drop the handle; otherwise no change.  A slot already
/// at the final generation only drops its handle.
pub open spec fn slots_kill(s: Seq<(u16, Option<u64>)>, e: SceneEntityId) -> Seq<(u16, Option<u64>)> {
    if s[e.id as int].0 == e.generation {
        if e.generation < 0xFFFF {
            s.update(e.id as int, ((e.generation + 1) as u16, None))
        } else {
            s.update(e.id as int, (e.generation, None))
        }
    } else {
        s
    }
}

/// Per-scene table of live entities.  Slot `i` stores the current generation
/// for index `i` together with the renderer handle of the live occupant, if
/// one has been materialized.  An id is live iff the stored generation equals
/// the id's generation; a lower stored generation means "not yet born", a
/// higher one means "dead".
///
/// Entities are recorded in `nascent` when a write first targets them, and in
/// `death_row` when a newer generation displaces them, so that an observer
/// can react to births and deaths once per tick without racing the table.
pub struct EntityIdTable {
    slots: Vec<(u16, Option<u64>)>,
    nascent: Vec<SceneEntityId>,
    death_row: Vec<SceneEntityId>,
}

impl EntityIdTable {
    /// The stored generation and handle of every slot.
    pub closed spec fn slots(self) -> Seq<(u16, Option<u64>)> {
        self.slots@
    }

    /// Entities waiting to be materialized by the renderer.
    pub closed spec fn nascent(self) -> Seq<SceneEntityId> {
        self.nascent@
    }

    /// Entities waiting to be despawned by the renderer.
    pub closed spec fn death_row(self) -> Seq<SceneEntityId> {
        self.death_row@
    }

    pub open spec fn wf(self) -> bool {
        self.slots().len() == slot_count()
    }

    /// The generation currently stored for a slot index.
    pub open spec fn gen_of(self, id: u16) -> u16 {
        self.slots()[id as int].0
    }

    /// The handle currently stored for a slot index.
    pub open spec fn handle_of(self, id: u16) -> Option<u64> {
        self.slots()[id as int].1
    }

    pub open spec fn spec_lookup(self, e: SceneEntityId) -> Option<u64> {
        slots_lookup(self.slots(), e)
    }

    pub open spec fn spec_is_dead(self, e: SceneEntityId) -> bool {
        slots_is_dead(self.slots(), e)
    }

    /// A fresh table: every slot at generation 0 with no handle, except that
    /// the root slot already owns the scene root's renderer handle.
    pub fn new(root_handle: u64) -> (r: EntityIdTable)
        ensures
            r.wf(),
            forall|i: u16| i != 0 ==> r.gen_of(i) == 0 && r.handle_of(i) == None::<u64>,
            r.gen_of(0) == 0,
            r.handle_of(0) == Some(root_handle),
            r.nascent() == Seq::<SceneEntityId>::empty(),
            r.death_row() == Seq::<SceneEntityId>::empty(),
    {
        let mut slots: Vec<(u16, Option<u64>)> = Vec::new();
        let mut i: usize = 0;
        while i < 0x1_0000
            invariant
                i == slots@.len(),
                i <= 0x1_0000,
                forall|j: int| 0 <= j < i ==> slots@[j] == (0u16, None::<u64>),
            decreases 0x1_0000 - i,
        {
            slots.push((0u16, None));
            i += 1;
        }
        slots[0] = (0u16, Some(root_handle));
        EntityIdTable { slots, nascent: Vec::new(), death_row: Vec::new() }
    }

    /// Record the renderer handle owning a scene entity.  The caller must
    /// know the slot has not yet been given a handle for this or a later
    /// generation; a violation would mean the lifecycle layer allowed a
    /// duplicate birth.
    pub fn associate(&mut self, e: SceneEntityId, handle: u64)
        requires
            old(self).wf(),
            old(self).gen_of(e.id) <= e.generation,
            old(self).handle_of(e.id) == None::<u64>,
        ensures
            final(self).wf(),
            final(self).slots() == slots_associate(old(self).slots(), e, handle),
            final(self).nascent() == old(self).nascent(),
            final(self).death_row() == old(self).death_row(),
    {
        self.slots[e.id as usize] = (e.generation, Some(handle));
    }

    /// The handle of a live entity: `Some` iff the stored generation exactly
    /// equals the requested generation and a handle has been recorded.
    pub fn lookup(&self, e: SceneEntityId) -> (r: Option<u64>)
        requires
            self.wf(),
        ensures
            r == self.spec_lookup(e),
    {
        let (generation, handle) = self.slots[e.id as usize];
        if generation == e.generation {
            handle
        } else {
            None
        }
    }

    /// Kill a live entity: when the stored generation matches, bump it and
    /// clear the handle; otherwise do nothing, so duplicate death messages
    /// are harmless.
    pub fn kill(&mut self, e: SceneEntityId)
        requires
            old(self).wf(),
        ensures
            final(self).wf(),
            final(self).slots() == slots_kill(old(self).slots(), e),
            final(self).nascent() == old(self).nascent(),
            final(self).death_row() == old(self).death_row(),
    {
        let (generation, _) = self.slots[e.id as usize];
        if generation == e.generation {
            if generation < 0xFFFF {
                self.slots[e.id as usize] = (generation + 1, None);
            } else {
                self.slots[e.id as usize] = (generation, None);
            }
        }
    }

    /// True iff the entity is dead: the slot has moved past its generation.
    pub fn is_dead(&self, e: SceneEntityId) -> (r: bool)
        requires
            self.wf(),
        ensures
            r == self.spec_is_dead(e),
    {
        let (generation, _) = self.slots[e.id as usize];
        generation > e.generation
    }

    /// Make sure a written-to entity is known to the table.  Returns `false`
    /// for a stale write (the slot has moved past the id's generation), in
    /// which case nothing changes.  Otherwise the write is current: if the
    /// id's generation is new for the slot, any live previous occupant is
    /// put on death row, the slot advances to the new generation with no
    /// handle yet, and the entity is recorded as nascent.
    pub fn note_write(&mut self, e: SceneEntityId) -> (current: bool)
        requires
            old(self).wf(),
        ensures
            final(self).wf(),
            current == !old(self).spec_is_dead(e),
            old(self).spec_is_dead(e) ==> *final(self) == *old(self),
            !old(self).spec_is_dead(e) && old(self).gen_of(e.id) == e.generation ==> *final(self) == *old(self),
            !old(self).spec_is_dead(e) && old(self).gen_of(e.id) < e.generation ==> {
                &&& final(self).slots() == old(self).slots().update(e.id as int, (e.generation, None::<u64>))
                &&& final(self).nascent() == old(self).nascent().push(e)
                &&& final(self).death_row() == (match old(self).handle_of(e.id) {
                    Some(_) => old(self).death_row().push(
                        SceneEntityId { id: e.id, generation: old(self).gen_of(e.id) }),
                    None => old(self).death_row(),
                })
            },
    {
        let (generation, handle) = self.slots[e.id as usize];
        if generation > e.generation {
            false
        } else if generation == e.generation {
            true
        } else {
            if handle.is_some() {
                self.death_row.push(SceneEntityId { id: e.id, generation });
            }
            self.slots[e.id as usize] = (e.generation, None);
            self.nascent.push(e);
            true
        }
    }

    /// Drain and return the per-tick census: the entities born and died since
    /// the last census.
    pub fn take_census(&mut self) -> (census: (Vec<SceneEntityId>, Vec<SceneEntityId>))
        requires
            old(self).wf(),
        ensures
            final(self).wf(),
            census.0@ == old(self).nascent(),
            census.1@ == old(self).death_row(),
            final(self).slots() == old(self).slots(),
            final(self).nascent() == Seq::<SceneEntityId>::empty(),
            final(self).death_row() == Seq::<SceneEntityId>::empty(),
    {
        let mut born: Vec<SceneEntityId> = Vec::new();
        let mut died: Vec<SceneEntityId> = Vec::new();
        core::mem::swap(&mut born, &mut self.nascent);
        core::mem::swap(&mut died, &mut self.death_row);
        (born, died)
    }
}

/// Generation-based reuse is safe.  Starting from any table state where an
/// id `e1` can be born, the sequence "associate `e1`, kill `e1`, associate
/// the next generation `e2`" is legal step by step, and afterwards a lookup
/// of `e1` misses, a lookup of `e2` finds the new handle, and `e1` is dead.
pub proof fn lemma_generation_reuse(s0: Seq<(u16, Option<u64>)>, e1: SceneEntityId, h1: u64, h2: u64)
    requires
        s0.len() == slot_count(),
        s0[e1.id as int].0 <= e1.generation,
        s0[e1.id as int].1 == None::<u64>,
        e1.generation < 0xFFFF,
    ensures
        ({
            let e2 = SceneEntityId { id: e1.id, generation: (e1.generation + 1) as u16 };
            let s1 = slots_associate(s0, e1, h1);
            let s2 = slots_kill(s1, e1);
            let s3 = slots_associate(s2, e2, h2);
            &&& s2[e2.id as int].0 <= e2.generation && s2[e2.id as int].1 == None::<u64>
            &&& slots_lookup(s3, e1) == None::<u64>
            &&& slots_lookup(s3, e2) == Some(h2)
            &&& slots_is_dead(s3, e1)
        }),
{
}

} // verus!
