//! Synchronization core for a client of a distributed virtual world.
//!
//! Independently authored scenes each own an entity/component namespace that
//! is replicated to a single renderer world through a CRDT protocol.  This
//! crate holds the pieces of that protocol that are pure data manipulation:
//! the per-scene entity-id table with generation-based liveness, the
//! conflict-free component store with last-write-wins and grow-only merge
//! rules, the binary codec for update batches, the per-scene renderer
//! context, the scene lifecycle state machine, and the spatial scheduler
//! that decides which scenes must be alive.

pub mod address;
pub mod codec;
pub mod context;
pub mod crdt;
pub mod entity_id;
pub mod kvmap;
pub mod lifecycle;
pub mod message;
pub mod pointers;
pub mod process;
pub mod scheduler;
pub mod table;
