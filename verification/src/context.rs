//! The per-scene renderer context: exclusive owner of one scene's entity-id
//! table and component store, together with the scene's metadata, health
//! flags and tick bookkeeping.

use vstd::prelude::*;

use crate::crdt::{CrdtKind, CrdtStore, UpdateBatch, go_has_component, key_component, key_refers,
    lemma_clean_up_excludes, lemma_go_entries_correspond, lemma_key_parts, lemma_take_go_output_keys,
    lww_has_component, spec_crdt_key, store_follows_registry, take_go_output};
use crate::entity_id::SceneEntityId;
use crate::process::{ComponentRegistry, DecodeError, apply_records_model, process_message_stream,
    spec_batch, state_of};
use crate::table::EntityIdTable;

verus! {

/// The state one running scene holds on the renderer side.  Created when the
/// scene finishes loading; destroyed, with everything it owns, when the
/// scene is unloaded.
pub struct RendererSceneContext {
    /// Content hash identifying the scene's definition.
    pub hash: String,
    /// Whether the scene is portable (carried along rather than pinned to
    /// its cells).
    pub is_portable: bool,
    /// Display title.
    pub title: String,
    /// Base parcel of the scene, in grid coordinates.
    pub base: (i32, i32),
    /// World-space bounds of the scene: low x, low y, high x, high y.
    pub bounds: (i64, i64, i64, i64),
    /// Points, in world units, where an avatar may enter the scene.
    pub spawn_points: Vec<(i64, i64, i64)>,
    /// Extent of the scene in cells per axis.
    pub size: (u32, u32),
    /// Scheduling priority (renderer-defined weight, in thousandths).
    pub priority: u32,
    /// The scene's entity-id table, exclusively owned.
    pub table: EntityIdTable,
    /// The scene's component store, exclusively owned.
    pub store: CrdtStore,
    /// Set when the scene's execution context reported an unrecoverable
    /// fault; a broken scene is kept for visibility but no longer ticked.
    pub broken: bool,
    /// Set while a message to the scene awaits an answer.
    pub in_flight: bool,
    /// Reasons the scene must not run; empty means ready.
    pub blocked: Vec<String>,
    /// Number of update cycles run.
    pub tick_number: u32,
    /// Duration of the last update, in microseconds.
    pub last_update_micros: u64,
    /// Total run time, in microseconds.
    pub total_runtime_micros: u64,
}

impl RendererSceneContext {
    pub open spec fn wf(self) -> bool {
        &&& self.table.wf()
        &&& self.store.wf()
    }

    /// A fresh context: empty store, a table owning only the root entity,
    /// clean flags, zeroed clocks.
    pub fn new(
        hash: String,
        is_portable: bool,
        title: String,
        base: (i32, i32),
        bounds: (i64, i64, i64, i64),
        spawn_points: Vec<(i64, i64, i64)>,
        root_handle: u64,
        size: (u32, u32),
        priority: u32,
    ) -> (r: RendererSceneContext)
        ensures
            r.wf(),
            r.hash == hash,
            r.is_portable == is_portable,
            r.title == title,
            r.base == base,
            r.bounds == bounds,
            r.spawn_points@ == spawn_points@,
            r.size == size,
            r.priority == priority,
            r.table.gen_of(0) == 0,
            r.table.handle_of(0) == Some(root_handle),
            forall|i: u16| i != 0 ==> r.table.gen_of(i) == 0 && r.table.handle_of(i) == None::<u64>,
            r.table.nascent() == Seq::<SceneEntityId>::empty(),
            r.table.death_row() == Seq::<SceneEntityId>::empty(),
            r.store.lww_model() == Map::<u64, (u64, Option<Seq<u8>>)>::empty(),
            r.store.dirty_model() == Seq::<u64>::empty(),
            r.store.go_model() == Map::<u64, Seq<Seq<u8>>>::empty(),
            !r.broken,
            !r.in_flight,
            r.blocked@ == Seq::<String>::empty(),
            r.tick_number == 0,
            r.last_update_micros == 0,
            r.total_runtime_micros == 0,
    {
        RendererSceneContext {
            hash,
            is_portable,
            title,
            base,
            bounds,
            spawn_points,
            size,
            priority,
            table: EntityIdTable::new(root_handle),
            store: CrdtStore::new(),
            broken: false,
            in_flight: false,
            blocked: Vec::new(),
            tick_number: 0,
            last_update_micros: 0,
            total_runtime_micros: 0,
        }
    }

    /// Record the renderer handle owning a scene entity (see
    /// `EntityIdTable::associate`).
    pub fn associate(&mut self, e: SceneEntityId, handle: u64)
        requires
            old(self).wf(),
            old(self).table.gen_of(e.id) <= e.generation,
            old(self).table.handle_of(e.id) == None::<u64>,
        ensures
            final(self).wf(),
            final(self).table.slots() == crate::table::slots_associate(old(self).table.slots(), e, handle),
            final(self).store == old(self).store,
            final(self).table.nascent() == old(self).table.nascent(),
            final(self).table.death_row() == old(self).table.death_row(),
            ctx_fields_unchanged(*old(self), *final(self)),
    {
        self.table.associate(e, handle);
    }

    /// The renderer handle of a live scene entity.
    pub fn lookup(&self, e: SceneEntityId) -> (r: Option<u64>)
        requires
            self.wf(),
        ensures
            r == self.table.spec_lookup(e),
    {
        self.table.lookup(e)
    }

    /// Mark a scene entity dead (see `EntityIdTable::kill`).
    pub fn kill(&mut self, e: SceneEntityId)
        requires
            old(self).wf(),
        ensures
            final(self).wf(),
            final(self).table.slots() == crate::table::slots_kill(old(self).table.slots(), e),
            final(self).store == old(self).store,
            final(self).table.nascent() == old(self).table.nascent(),
            final(self).table.death_row() == old(self).table.death_row(),
            ctx_fields_unchanged(*old(self), *final(self)),
    {
        self.table.kill(e);
    }

    pub fn is_dead(&self, e: SceneEntityId) -> (r: bool)
        requires
            self.wf(),
        ensures
            r == self.table.spec_is_dead(e),
    {
        self.table.is_dead(e)
    }

    /// Renderer-originated component write, routed by the component's
    /// registered merge rule and reflected back to the scene on the next
    /// drain: a register write is marked dirty, a grow-only write joins the
    /// pending payloads.  The write keeps the store in agreement with the
    /// registry; only registered components may be written.
    pub fn update_crdt(
        &mut self,
        registry: &ComponentRegistry,
        component: u32,
        entity: SceneEntityId,
        payload: Vec<u8>,
    )
        requires
            old(self).wf(),
            registry.wf(),
            store_follows_registry(old(self).store, registry.model()),
            registry.model().contains_key(component as u64),
        ensures
            final(self).wf(),
            store_follows_registry(final(self).store, registry.model()),
            final(self).table == old(self).table,
            ctx_fields_unchanged(*old(self), *final(self)),
            registry.model()[component as u64] == CrdtKind::Lww ==> ({
                let k = spec_crdt_key(component, entity);
                let ts: u64 = match old(self).store.spec_reg(k) {
                    None => 0,
                    Some(r) => if r.0 == u64::MAX { u64::MAX } else { (r.0 + 1) as u64 },
                };
                &&& final(self).store.lww_model() == old(self).store.lww_model().insert(
                    k, (ts, Some(payload@)))
                &&& final(self).store.dirty_model() == (
                    if old(self).store.dirty_model().contains(k) {
                        old(self).store.dirty_model()
                    } else {
                        old(self).store.dirty_model().push(k)
                    })
                &&& final(self).store.go_model() == old(self).store.go_model()
            }),
            registry.model()[component as u64] == CrdtKind::Go ==> ({
                let k = spec_crdt_key(component, entity);
                let prior = if old(self).store.go_model().contains_key(k) {
                    old(self).store.go_model()[k]
                } else {
                    Seq::empty()
                };
                &&& final(self).store.go_model() == old(self).store.go_model().insert(
                    k, prior.push(payload@))
                &&& final(self).store.taken_model() == (
                    if old(self).store.taken_model().contains_key(k) {
                        old(self).store.taken_model()
                    } else {
                        old(self).store.taken_model().insert(k, 0)
                    })
                &&& final(self).store.lww_model() == old(self).store.lww_model()
                &&& final(self).store.dirty_model() == old(self).store.dirty_model()
            }),
    {
        let ghost reg = registry.model();
        let kind = registry.lookup(component).unwrap();
        let value = Some(payload);
        proof {
            assert(value.deep_view() =~~= Some(value->0@));
            lemma_component_rule_free(old(self).store, reg, component, kind);
        }
        self.store.force_update(component, kind, entity, value);
        proof {
            lemma_key_parts(component, entity);
            assert(store_follows_registry(self.store, reg)) by {
                follows_preserved_after_write(old(self).store, self.store, reg, component, kind, entity);
            }
        }
    }

    /// Renderer-originated deletion of a register value: a tombstone write
    /// under the same timestamp rule as `update_crdt`, marked dirty for the
    /// next drain.  Only a component registered last-write-wins can carry a
    /// tombstone.
    pub fn clear_crdt(&mut self, registry: &ComponentRegistry, component: u32, entity: SceneEntityId)
        requires
            old(self).wf(),
            registry.wf(),
            store_follows_registry(old(self).store, registry.model()),
            registry.model().contains_key(component as u64),
            registry.model()[component as u64] == CrdtKind::Lww,
        ensures
            final(self).wf(),
            store_follows_registry(final(self).store, registry.model()),
            final(self).table == old(self).table,
            ctx_fields_unchanged(*old(self), *final(self)),
            ({
                let k = spec_crdt_key(component, entity);
                let ts: u64 = match old(self).store.spec_reg(k) {
                    None => 0,
                    Some(r) => if r.0 == u64::MAX { u64::MAX } else { (r.0 + 1) as u64 },
                };
                &&& final(self).store.lww_model() == old(self).store.lww_model().insert(
                    k, (ts, None::<Seq<u8>>))
                &&& final(self).store.dirty_model() == (
                    if old(self).store.dirty_model().contains(k) {
                        old(self).store.dirty_model()
                    } else {
                        old(self).store.dirty_model().push(k)
                    })
            }),
            final(self).store.go_model() == old(self).store.go_model(),
    {
        let ghost reg = registry.model();
        let value: Option<Vec<u8>> = None;
        proof {
            assert(value.deep_view() =~~= None::<Seq<u8>>);
            lemma_component_rule_free(old(self).store, reg, component, CrdtKind::Lww);
        }
        self.store.force_update(component, CrdtKind::Lww, entity, value);
        proof {
            lemma_key_parts(component, entity);
            follows_preserved_after_write(old(self).store, self.store, reg, component, CrdtKind::Lww, entity);
        }
    }

    /// Drain the renderer-originated updates for delivery to the scene.
    /// Because the store agrees with the registry, the batch is cleanly
    /// partitioned: every register update belongs to a component registered
    /// last-write-wins, every grow-only update to one registered grow-only,
    /// and in particular no component id appears on both sides.
    pub fn take_updates(&mut self, registry: &ComponentRegistry) -> (batch: UpdateBatch)
        requires
            old(self).wf(),
            registry.wf(),
            store_follows_registry(old(self).store, registry.model()),
        ensures
            final(self).wf(),
            store_follows_registry(final(self).store, registry.model()),
            final(self).table == old(self).table,
            ctx_fields_unchanged(*old(self), *final(self)),
            final(self).store.lww_model() == old(self).store.lww_model(),
            final(self).store.dirty_model() == Seq::<u64>::empty(),
            final(self).store.go_model() == old(self).store.go_model(),
            batch.lww@.len() == old(self).store.dirty_model().len(),
            forall|i: int| 0 <= i < batch.lww@.len() ==> {
                let k = old(self).store.dirty_model()[i];
                let u = #[trigger] batch.lww@[i];
                &&& spec_crdt_key(u.component, u.entity) == k
                &&& old(self).store.lww_model().contains_key(k)
                &&& (u.timestamp, u.value.deep_view()) == old(self).store.lww_model()[k]
            },
            batch.go@.map_values(
                (|u: crate::crdt::GoUpdate| (spec_crdt_key(u.component, u.entity), u.payload@)),
            ) == take_go_output(old(self).store.go_entries_model()),
            forall|a: int| 0 <= a < batch.lww@.len()
                ==> registry.model().contains_key((#[trigger] batch.lww@[a]).component as u64)
                    && registry.model()[batch.lww@[a].component as u64] == CrdtKind::Lww,
            forall|b: int| 0 <= b < batch.go@.len()
                ==> registry.model().contains_key((#[trigger] batch.go@[b]).component as u64)
                    && registry.model()[batch.go@[b].component as u64] == CrdtKind::Go,
            forall|a: int, b: int| 0 <= a < batch.lww@.len() && 0 <= b < batch.go@.len()
                ==> (#[trigger] batch.lww@[a]).component != (#[trigger] batch.go@[b]).component,
    {
        let ghost reg = registry.model();
        let ghost pre = old(self).store;
        let batch = self.store.take_updates();
        proof {
            let tag = |u: crate::crdt::GoUpdate| (spec_crdt_key(u.component, u.entity), u.payload@);
            assert forall|a: int| 0 <= a < batch.lww@.len()
                implies reg.contains_key((#[trigger] batch.lww@[a]).component as u64)
                    && reg[batch.lww@[a].component as u64] == CrdtKind::Lww by {
                let u = batch.lww@[a];
                let k = pre.dirty_model()[a];
                assert(pre.lww_model().contains_key(k));
                lemma_key_parts(u.component, u.entity);
            }
            lemma_take_go_output_keys(pre.go_entries_model());
            assert forall|b: int| 0 <= b < batch.go@.len()
                implies reg.contains_key((#[trigger] batch.go@[b]).component as u64)
                    && reg[batch.go@[b].component as u64] == CrdtKind::Go by {
                let u = batch.go@[b];
                let out = take_go_output(pre.go_entries_model());
                assert(batch.go@.map_values(tag)[b] == tag(u));
                assert(out[b].0 == spec_crdt_key(u.component, u.entity));
                let i = choose|i: int| 0 <= i < pre.go_entries_model().len()
                    && out[b].0 == (#[trigger] pre.go_entries_model()[i]).0;
                lemma_go_entries_correspond(pre, pre.go_entries_model()[i].0);
                assert(pre.go_model().contains_key(out[b].0));
                lemma_key_parts(u.component, u.entity);
            }
            assert(store_follows_registry(self.store, reg)) by {
                assert forall|k: u64| #[trigger] self.store.lww_model().contains_key(k)
                    implies reg.contains_key(key_component(k) as u64)
                        && reg[key_component(k) as u64] == CrdtKind::Lww by {
                    assert(pre.lww_model().contains_key(k));
                }
                assert forall|k: u64| #[trigger] self.store.go_model().contains_key(k)
                    implies reg.contains_key(key_component(k) as u64)
                        && reg[key_component(k) as u64] == CrdtKind::Go by {
                    assert(pre.go_model().contains_key(k));
                }
            }
        }
        batch
    }

    /// Record a reason the scene must not run.    /// Record a reason the scene must not run.  Adding a reason twice has
    /// no effect beyond the first time.
    pub fn block(&mut self, reason: String)
        requires
            old(self).wf(),
        ensures
            final(self).wf(),
            final(self).table == old(self).table,
            final(self).store == old(self).store,
            (exists|i: int| 0 <= i < old(self).blocked@.len()
                && (#[trigger] old(self).blocked@[i])@ == reason@)
                ==> final(self).blocked == old(self).blocked,
            !(exists|i: int| 0 <= i < old(self).blocked@.len()
                && (#[trigger] old(self).blocked@[i])@ == reason@)
                ==> final(self).blocked@ == old(self).blocked@.push(reason),
    {
        let mut i: usize = 0;
        let n = self.blocked.len();
        while i < n
            invariant
                *self == *old(self),
                old(self).wf(),
                n == self.blocked@.len(),
                i <= n,
                forall|j: int| 0 <= j < i ==> (#[trigger] self.blocked@[j])@ != reason@,
            decreases n - i,
        {
            if self.blocked[i] == reason {
                return ;
            }
            i += 1;
        }
        self.blocked.push(reason);
    }

    /// Clear a reason the scene must not run.
    pub fn unblock(&mut self, reason: &String)
        requires
            old(self).wf(),
        ensures
            final(self).wf(),
            final(self).table == old(self).table,
            final(self).store == old(self).store,
            final(self).blocked@ == old(self).blocked@.filter(
                (|b: String| b@ != reason@),
            ),
    {
        let mut kept: Vec<String> = Vec::new();
        let ghost pred = |b: String| b@ != reason@;
        let mut i: usize = 0;
        let n = self.blocked.len();
        while i < n
            invariant
                *self == *old(self),
                old(self).wf(),
                n == self.blocked@.len(),
                i <= n,
                pred == (|b: String| b@ != reason@),
                kept@ == self.blocked@.take(i as int).filter(pred),
            decreases n - i,
        {
            proof {
                reveal(Seq::filter);
                assert(self.blocked@.take(i as int + 1).drop_last() =~= self.blocked@.take(i as int));
            }
            if !(self.blocked[i] == *reason) {
                let b = self.blocked[i].clone();
                kept.push(b);
                proof {
                    assert(pred(self.blocked@[i as int]));
                    assert(kept@ =~= self.blocked@.take(i as int + 1).filter(pred));
                }
            } else {
                proof {
                    assert(!pred(self.blocked@[i as int]));
                    assert(kept@ =~= self.blocked@.take(i as int + 1).filter(pred));
                }
            }
            i += 1;
        }
        proof {
            assert(self.blocked@.take(n as int) =~= self.blocked@);
        }
        self.blocked = kept;
    }

    /// One full update cycle for the scene: decode and merge the incoming
    /// batch, take the census of entities born and died, forget everything
    /// the died entities owned, and drain the outgoing updates.  A corrupt
    /// batch aborts with an error after the valid prefix was applied, and
    /// nothing further happens.  On success, no drained update refers to an
    /// entity the census reports dead.
    pub fn run_update_cycle(&mut self, registry: &ComponentRegistry, buf: &Vec<u8>)
        -> (r: Result<((Vec<SceneEntityId>, Vec<SceneEntityId>), UpdateBatch), DecodeError>)
        requires
            old(self).wf(),
            registry.wf(),
            store_follows_registry(old(self).store, registry.model()),
        ensures
            final(self).wf(),
            store_follows_registry(final(self).store, registry.model()),
            ctx_fields_unchanged(*old(self), *final(self)),
            (r is Ok <==> spec_batch(buf@, 0).1),
            ({
                let st1 = apply_records_model(
                    state_of(old(self).store, old(self).table),
                    registry.model(),
                    spec_batch(buf@, 0).0,
                );
                match r {
                    Err(_) => state_of(final(self).store, final(self).table) == st1,
                    Ok(out) => {
                        &&& out.0.0@ == st1.nascent
                        &&& out.0.1@ == st1.death_row
                        &&& final(self).table.slots() == st1.slots
                        &&& final(self).table.nascent() == Seq::<SceneEntityId>::empty()
                        &&& final(self).table.death_row() == Seq::<SceneEntityId>::empty()
                        &&& final(self).store.dirty_model() == Seq::<u64>::empty()
                        &&& final(self).store.lww_model() == Map::new(
                            |k: u64| st1.lww.contains_key(k) && !key_refers(k, st1.death_row),
                            |k: u64| st1.lww[k],
                        )
                        &&& forall|a: int, b: int|
                            0 <= a < out.1.lww@.len() && 0 <= b < out.0.1@.len()
                            ==> (#[trigger] out.1.lww@[a]).entity.spec_pack()
                                != (#[trigger] out.0.1@[b]).spec_pack()
                        &&& forall|a: int, b: int|
                            0 <= a < out.1.go@.len() && 0 <= b < out.0.1@.len()
                            ==> (#[trigger] out.1.go@[a]).entity.spec_pack()
                                != (#[trigger] out.0.1@[b]).spec_pack()
                    }
                }
            }),
    {
        match process_message_stream(&mut self.store, &mut self.table, registry, buf) {
            Err(e) => Err(e),
            Ok(_applied) => {
                let census = self.table.take_census();
                let ghost died = census.1@;
                let ghost dirty_before = self.store.dirty_model();
                let ghost entries_before = self.store.go_entries_model();
                self.store.clean_up(&census.1);
                let ghost dirty_clean = self.store.dirty_model();
                let ghost entries_clean = self.store.go_entries_model();
                let ghost store_before_take = self.store;
                let updates = self.store.take_updates();
                proof {
                    let reg = registry.model();
                    assert(store_follows_registry(self.store, reg)) by {
                        assert forall|k: u64| #[trigger] self.store.lww_model().contains_key(k)
                            implies reg.contains_key(key_component(k) as u64)
                                && reg[key_component(k) as u64] == CrdtKind::Lww by {
                            assert(store_before_take.lww_model().contains_key(k));
                        }
                        assert forall|k: u64| #[trigger] self.store.go_model().contains_key(k)
                            implies reg.contains_key(key_component(k) as u64)
                                && reg[key_component(k) as u64] == CrdtKind::Go by {
                            assert(store_before_take.go_model().contains_key(k));
                        }
                    }
                    lemma_clean_up_excludes(dirty_clean, entries_clean, died);
                    let tag = |u: crate::crdt::GoUpdate| (spec_crdt_key(u.component, u.entity), u.payload@);
                    assert forall|a: int, b: int|
                        0 <= a < updates.lww@.len() && 0 <= b < died.len()
                        implies (#[trigger] updates.lww@[a]).entity.spec_pack()
                            != (#[trigger] died[b]).spec_pack() by {
                        let u = updates.lww@[a];
                        let k = dirty_clean[a];
                        assert(spec_crdt_key(u.component, u.entity) == k);
                        assert(!key_refers(k, died));
                        lemma_key_parts(u.component, u.entity);
                        if died[b].spec_pack() == u.entity.spec_pack() {
                            assert(died[b].spec_pack() == crate::crdt::key_entity(k));
                            assert(key_refers(k, died));
                        }
                    }
                    assert forall|a: int, b: int|
                        0 <= a < updates.go@.len() && 0 <= b < died.len()
                        implies (#[trigger] updates.go@[a]).entity.spec_pack()
                            != (#[trigger] died[b]).spec_pack() by {
                        let u = updates.go@[a];
                        assert(updates.go@.map_values(tag)[a] == tag(u));
                        assert(take_go_output(entries_clean)[a].0 == spec_crdt_key(u.component, u.entity));
                        assert(!key_refers(spec_crdt_key(u.component, u.entity), died));
                        lemma_key_parts(u.component, u.entity);
                        if died[b].spec_pack() == u.entity.spec_pack() {
                            assert(key_refers(spec_crdt_key(u.component, u.entity), died));
                        }
                    }
                    assert(final(self).store.lww_model() =~= Map::new(
                        |k: u64| apply_records_model(
                            state_of(old(self).store, old(self).table),
                            registry.model(),
                            spec_batch(buf@, 0).0,
                        ).lww.contains_key(k) && !key_refers(k, apply_records_model(
                            state_of(old(self).store, old(self).table),
                            registry.model(),
                            spec_batch(buf@, 0).0,
                        ).death_row),
                        |k: u64| apply_records_model(
                            state_of(old(self).store, old(self).table),
                            registry.model(),
                            spec_batch(buf@, 0).0,
                        ).lww[k],
                    ));
                }
                Ok((census, updates))
            }
        }
    }

    /// Whether the scene should receive a tick: not broken, not awaiting an
    /// answer, and not blocked for any reason.
    pub fn should_tick(&self) -> (r: bool)
        ensures
            r == (!self.broken && !self.in_flight && self.blocked@.len() == 0),
    {
        !self.broken && !self.in_flight && self.blocked.len() == 0
    }

    /// Record a completed update cycle: the tick counter advances (saturating
    /// at its maximum) and the clocks take in the cycle's duration.
    pub fn note_tick(&mut self, update_micros: u64)
        requires
            old(self).wf(),
        ensures
            final(self).wf(),
            final(self).tick_number == (if old(self).tick_number == u32::MAX {
                u32::MAX
            } else {
                (old(self).tick_number + 1) as u32
            }),
            final(self).last_update_micros == update_micros,
            final(self).total_runtime_micros == (if old(self).total_runtime_micros + update_micros > u64::MAX {
                u64::MAX
            } else {
                (old(self).total_runtime_micros + update_micros) as u64
            }),
            final(self).table == old(self).table,
            final(self).store == old(self).store,
            final(self).hash == old(self).hash,
            final(self).is_portable == old(self).is_portable,
            final(self).title == old(self).title,
            final(self).base == old(self).base,
            final(self).bounds == old(self).bounds,
            final(self).spawn_points == old(self).spawn_points,
            final(self).size == old(self).size,
            final(self).priority == old(self).priority,
            final(self).broken == old(self).broken,
            final(self).in_flight == old(self).in_flight,
            final(self).blocked == old(self).blocked,
    {
        if self.tick_number < u32::MAX {
            self.tick_number = self.tick_number + 1;
        }
        self.last_update_micros = update_micros;
        if self.total_runtime_micros <= u64::MAX - update_micros {
            self.total_runtime_micros = self.total_runtime_micros + update_micros;
        } else {
            self.total_runtime_micros = u64::MAX;
        }
    }
}

/// When the store agrees with a registry, a component registered under one
/// rule has nothing in the other rule's map, so a routed write is admissible.
proof fn lemma_component_rule_free(s: CrdtStore, reg: Map<u64, CrdtKind>, component: u32, kind: CrdtKind)
    requires
        store_follows_registry(s, reg),
        reg.contains_key(component as u64),
        reg[component as u64] == kind,
    ensures
        kind == CrdtKind::Lww ==> !go_has_component(s, component),
        kind == CrdtKind::Go ==> !lww_has_component(s, component),
{
    if kind == CrdtKind::Lww && go_has_component(s, component) {
        let k = choose|k: u64| #[trigger] s.go_model().contains_key(k)
            && key_component(k) == component;
    }
    if kind == CrdtKind::Go && lww_has_component(s, component) {
        let k = choose|k: u64| #[trigger] s.lww_model().contains_key(k)
            && key_component(k) == component;
    }
}

/// A routed write of a registered component keeps the store in agreement
/// with the registry: the one key it may add carries that component.
proof fn follows_preserved_after_write(
    pre: CrdtStore,
    post: CrdtStore,
    reg: Map<u64, CrdtKind>,
    component: u32,
    kind: CrdtKind,
    entity: SceneEntityId,
)
    requires
        store_follows_registry(pre, reg),
        reg.contains_key(component as u64),
        reg[component as u64] == kind,
        kind == CrdtKind::Lww ==> post.lww_model()
            == pre.lww_model().insert(spec_crdt_key(component, entity), post.lww_model()[spec_crdt_key(component, entity)])
            && post.go_model() == pre.go_model(),
        kind == CrdtKind::Go ==> post.go_model()
            == pre.go_model().insert(spec_crdt_key(component, entity), post.go_model()[spec_crdt_key(component, entity)])
            && post.lww_model() == pre.lww_model(),
    ensures
        store_follows_registry(post, reg),
{
    lemma_key_parts(component, entity);
    let knew = spec_crdt_key(component, entity);
    assert forall|k: u64| #[trigger] post.lww_model().contains_key(k)
        implies reg.contains_key(key_component(k) as u64)
            && reg[key_component(k) as u64] == CrdtKind::Lww by {
        if kind == CrdtKind::Lww {
            if k != knew {
                assert(pre.lww_model().contains_key(k));
            }
        } else {
            assert(pre.lww_model().contains_key(k));
        }
    }
    assert forall|k: u64| #[trigger] post.go_model().contains_key(k)
        implies reg.contains_key(key_component(k) as u64)
            && reg[key_component(k) as u64] == CrdtKind::Go by {
        if kind == CrdtKind::Go {
            if k != knew {
                assert(pre.go_model().contains_key(k));
            }
        } else {
            assert(pre.go_model().contains_key(k));
        }
    }
}

/// The metadata and health fields both sides agree on across an operation
/// that only touches the table or the store.
pub open spec fn ctx_fields_unchanged(a: RendererSceneContext, b: RendererSceneContext) -> bool {
    &&& a.hash == b.hash
    &&& a.is_portable == b.is_portable
    &&& a.title == b.title
    &&& a.base == b.base
    &&& a.bounds == b.bounds
    &&& a.spawn_points == b.spawn_points
    &&& a.size == b.size
    &&& a.priority == b.priority
    &&& a.broken == b.broken
    &&& a.in_flight == b.in_flight
    &&& a.blocked == b.blocked
    &&& a.tick_number == b.tick_number
    &&& a.last_update_micros == b.last_update_micros
    &&& a.total_runtime_micros == b.total_runtime_micros
}

} // verus!
