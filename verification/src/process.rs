//! Applying a decoded update batch to a scene's store and entity table: the
//! routing layer between the wire codec and the CRDT merge rules.

use vstd::prelude::*;

use vstd::bytes::spec_u64_from_le_bytes;

use crate::codec::{DecodeOutcomeV, DecodeStep, KIND_GO, KIND_LWW, WireRecord, WireRecordV,
    build_lww_payload, decode_record, encode_record, spec_decode, spec_encoding, split_lww_payload};
use crate::crdt::{CrdtKind, CrdtStore, UpdateBatch, go_has_component, key_component,
    lemma_key_parts, lww_has_component, lww_write_accepted, model_index_of, spec_crdt_key,
    store_follows_registry};
use crate::entity_id::SceneEntityId;
use crate::kvmap::KvMap;
use crate::table::{EntityIdTable, slots_is_dead};

verus! {

/// The capability registry: which merge rule applies to each registered
/// component id.  Populated once at startup; component ids not registered
/// here are ignored by the processor, so new component types never break an
/// old client.
pub struct ComponentRegistry {
    kinds: KvMap<CrdtKind>,
}

impl ComponentRegistry {
    pub closed spec fn model(self) -> Map<u64, CrdtKind> {
        self.kinds.as_map()
    }

    pub closed spec fn wf(self) -> bool {
        self.kinds.wf()
    }

    pub fn new() -> (r: ComponentRegistry)
        ensures
            r.wf(),
            r.model() == Map::<u64, CrdtKind>::empty(),
    {
        ComponentRegistry { kinds: KvMap::new() }
    }

    pub fn register(&mut self, component: u32, kind: CrdtKind)
        requires
            old(self).wf(),
        ensures
            final(self).wf(),
            final(self).model() == old(self).model().insert(component as u64, kind),
    {
        self.kinds.insert(component as u64, kind);
    }

    pub fn lookup(&self, component: u32) -> (r: Option<CrdtKind>)
        requires
            self.wf(),
        ensures
            match r {
                Some(kind) => self.model().contains_key(component as u64)
                    && self.model()[component as u64] == kind,
                None => !self.model().contains_key(component as u64),
            },
    {
        match self.kinds.get(component as u64) {
            Some(kind) => Some(*kind),
            None => None,
        }
    }
}

/// A batch that could not be decoded: a record inside it was corrupt.  The
/// state keeps everything validly applied before the bad record.
#[derive(Clone, Copy, PartialEq, Eq, Structural, Debug)]
pub struct DecodeError;

/// The register payload a drained update encodes to: the timestamp followed
/// by the value, nothing after the timestamp for a tombstone.
pub open spec fn spec_lww_wire_payload(timestamp: u64, value: Option<Seq<u8>>) -> Seq<u8> {
    vstd::bytes::spec_u64_to_le_bytes(timestamp) + (match value {
        Some(v) => v,
        None => Seq::empty(),
    })
}

/// Encode a drained batch for delivery to a scene: one framed record per
/// update, register updates first (as register records carrying their
/// timestamp), then the grow-only payloads (as append records), each in the
/// batch's order.  The inverse direction of the batch decoder, record for
/// record.
pub fn encode_batch(batch: &UpdateBatch) -> (r: Vec<Vec<u8>>)
    requires
        forall|i: int| 0 <= i < batch.lww@.len()
            ==> (#[trigger] batch.lww@[i]).value.deep_view() is Some
                ==> batch.lww@[i].value.deep_view()->0.len() <= u32::MAX - 8,
        forall|j: int| 0 <= j < batch.go@.len()
            ==> (#[trigger] batch.go@[j]).payload@.len() <= u32::MAX,
    ensures
        r@.len() == batch.lww@.len() + batch.go@.len(),
        forall|i: int| 0 <= i < batch.lww@.len() ==> {
            let u = #[trigger] batch.lww@[i];
            r@[i]@ == spec_encoding(WireRecordV {
                entity: u.entity,
                component: u.component,
                kind: KIND_LWW,
                payload: spec_lww_wire_payload(u.timestamp, u.value.deep_view()),
            })
        },
        forall|j: int| 0 <= j < batch.go@.len() ==> {
            let u = #[trigger] batch.go@[j];
            r@[batch.lww@.len() + j]@ == spec_encoding(WireRecordV {
                entity: u.entity,
                component: u.component,
                kind: KIND_GO,
                payload: u.payload@,
            })
        },
{
    let mut out: Vec<Vec<u8>> = Vec::new();
    let ln = batch.lww.len();
    let mut i: usize = 0;
    while i < ln
        invariant
            ln == batch.lww@.len(),
            i <= ln,
            out@.len() == i,
            forall|a: int| 0 <= a < batch.lww@.len()
                ==> (#[trigger] batch.lww@[a]).value.deep_view() is Some
                    ==> batch.lww@[a].value.deep_view()->0.len() <= u32::MAX - 8,
            forall|a: int| 0 <= a < i ==> {
                let u = #[trigger] batch.lww@[a];
                out@[a]@ == spec_encoding(WireRecordV {
                    entity: u.entity,
                    component: u.component,
                    kind: KIND_LWW,
                    payload: spec_lww_wire_payload(u.timestamp, u.value.deep_view()),
                })
            },
        decreases ln - i,
    {
        let u = &batch.lww[i];
        let payload = build_lww_payload(u.timestamp, &u.value);
        proof {
            assert(payload@ =~= spec_lww_wire_payload(u.timestamp, u.value.deep_view()));
        }
        let rec = WireRecord { entity: u.entity, component: u.component, kind: KIND_LWW, payload };
        let mut buf: Vec<u8> = Vec::new();
        encode_record(&rec, &mut buf);
        proof {
            assert(buf@ =~= spec_encoding(rec@));
        }
        out.push(buf);
        i += 1;
    }
    let gn = batch.go.len();
    let mut j: usize = 0;
    while j < gn
        invariant
            ln == batch.lww@.len(),
            gn == batch.go@.len(),
            j <= gn,
            out@.len() == ln + j,
            forall|b: int| 0 <= b < batch.go@.len()
                ==> (#[trigger] batch.go@[b]).payload@.len() <= u32::MAX,
            forall|a: int| 0 <= a < ln ==> {
                let u = #[trigger] batch.lww@[a];
                out@[a]@ == spec_encoding(WireRecordV {
                    entity: u.entity,
                    component: u.component,
                    kind: KIND_LWW,
                    payload: spec_lww_wire_payload(u.timestamp, u.value.deep_view()),
                })
            },
            forall|b: int| 0 <= b < j ==> {
                let u = #[trigger] batch.go@[b];
                out@[ln + b]@ == spec_encoding(WireRecordV {
                    entity: u.entity,
                    component: u.component,
                    kind: KIND_GO,
                    payload: u.payload@,
                })
            },
        decreases gn - j,
    {
        let u = &batch.go[j];
        let payload = crate::crdt::copy_bytes(&u.payload);
        let rec = WireRecord { entity: u.entity, component: u.component, kind: KIND_GO, payload };
        let mut buf: Vec<u8> = Vec::new();
        encode_record(&rec, &mut buf);
        proof {
            assert(buf@ =~= spec_encoding(rec@));
        }
        out.push(buf);
        j += 1;
    }
    out
}

/// The records a buffer decodes to, and whether decoding ended cleanly
/// (insufficient data for a further record) or on a corrupt record.
pub open spec fn spec_batch(buf: Seq<u8>, pos: int) -> (Seq<WireRecordV>, bool)
    decreases buf.len() - pos,
{
    match spec_decode(buf, pos) {
        DecodeOutcomeV::Incomplete => (Seq::empty(), true),
        DecodeOutcomeV::Corrupt => (Seq::empty(), false),
        DecodeOutcomeV::Complete(v, np) => {
            if pos < np <= buf.len() {
                let rest = spec_batch(buf, np);
                (seq![v] + rest.0, rest.1)
            } else {
                (Seq::empty(), false)
            }
        }
    }
}

/// The joint abstract state a batch acts on: the store's registers, dirty
/// keys and grow-only lists, and the table's slots and pending census.
pub struct SyncState {
    pub lww: Map<u64, (u64, Option<Seq<u8>>)>,
    pub dirty: Seq<u64>,
    pub go_entries: Seq<(u64, (Seq<Seq<u8>>, int))>,
    pub slots: Seq<(u16, Option<u64>)>,
    pub nascent: Seq<SceneEntityId>,
    pub death_row: Seq<SceneEntityId>,
}

/// The abstract state a store and table currently hold.
pub open spec fn state_of(store: CrdtStore, table: EntityIdTable) -> SyncState {
    SyncState {
        lww: store.lww_model(),
        dirty: store.dirty_model(),
        go_entries: store.go_entries_model(),
        slots: table.slots(),
        nascent: table.nascent(),
        death_row: table.death_row(),
    }
}

/// The effect of noting a write to an entity: nothing for a known or dead
/// id; a new generation advances the slot, records the entity as nascent,
/// and puts any displaced live occupant on death row.
pub open spec fn note_write_model(st: SyncState, e: SceneEntityId) -> SyncState {
    if st.slots[e.id as int].0 >= e.generation {
        st
    } else {
        SyncState {
            slots: st.slots.update(e.id as int, (e.generation, None)),
            nascent: st.nascent.push(e),
            death_row: match st.slots[e.id as int].1 {
                Some(_) => st.death_row.push(
                    SceneEntityId { id: e.id, generation: st.slots[e.id as int].0 },
                ),
                None => st.death_row,
            },
            lww: st.lww,
            dirty: st.dirty,
            go_entries: st.go_entries,
        }
    }
}

/// The effect of one last-write-wins write on the abstract state.
pub open spec fn lww_apply_model(st: SyncState, k: u64, ts: u64, value: Option<Seq<u8>>) -> SyncState {
    let reg = if st.lww.contains_key(k) {
        Some(st.lww[k])
    } else {
        None
    };
    if lww_write_accepted(reg, ts) {
        SyncState {
            lww: st.lww.insert(k, (ts, value)),
            dirty: if st.dirty.contains(k) {
                st.dirty
            } else {
                st.dirty.push(k)
            },
            go_entries: st.go_entries,
            slots: st.slots,
            nascent: st.nascent,
            death_row: st.death_row,
        }
    } else {
        st
    }
}

/// The effect of one grow-only append on the abstract state.
pub open spec fn go_apply_model(st: SyncState, k: u64, payload: Seq<u8>) -> SyncState {
    let i = model_index_of(st.go_entries, k);
    let present = exists|j: int| 0 <= j < st.go_entries.len() && (#[trigger] st.go_entries[j]).0 == k;
    SyncState {
        go_entries: if present {
            st.go_entries.update(i, (k, (st.go_entries[i].1.0.push(payload), st.go_entries[i].1.1)))
        } else {
            st.go_entries.push((k, (Seq::<Seq<u8>>::empty().push(payload), 0)))
        },
        lww: st.lww,
        dirty: st.dirty,
        slots: st.slots,
        nascent: st.nascent,
        death_row: st.death_row,
    }
}

/// The effect of one decoded record: stale writes to dead entities are
/// dropped whole; otherwise the entity is noted, and the write is applied
/// when the component is registered and the record's kind agrees with the
/// registered rule, and ignored otherwise.
pub open spec fn apply_record_model(st: SyncState, reg: Map<u64, CrdtKind>, v: WireRecordV) -> SyncState {
    if slots_is_dead(st.slots, v.entity) {
        st
    } else {
        let st1 = note_write_model(st, v.entity);
        let ck = v.component as u64;
        if !reg.contains_key(ck) {
            st1
        } else if reg[ck] == CrdtKind::Lww && v.kind == KIND_LWW {
            let ts = spec_u64_from_le_bytes(v.payload.subrange(0, 8));
            let value = if v.payload.len() > 8 {
                Some(v.payload.skip(8))
            } else {
                None
            };
            lww_apply_model(st1, spec_crdt_key(v.component, v.entity), ts, value)
        } else if reg[ck] == CrdtKind::Go && v.kind == KIND_GO {
            go_apply_model(st1, spec_crdt_key(v.component, v.entity), v.payload)
        } else {
            st1
        }
    }
}

/// The effect of a whole record sequence, applied in order.
pub open spec fn apply_records_model(st: SyncState, reg: Map<u64, CrdtKind>, rs: Seq<WireRecordV>) -> SyncState
    decreases rs.len(),
{
    if rs.len() == 0 {
        st
    } else {
        apply_records_model(apply_record_model(st, reg, rs[0]), reg, rs.drop_first())
    }
}

/// Appending one record to a run applies it after the run.
pub proof fn lemma_apply_records_snoc(st: SyncState, reg: Map<u64, CrdtKind>, rs: Seq<WireRecordV>, v: WireRecordV)
    ensures
        apply_records_model(st, reg, rs.push(v))
            == apply_record_model(apply_records_model(st, reg, rs), reg, v),
    decreases rs.len(),
{
    if rs.len() == 0 {
        assert(rs.push(v)[0] == v);
        assert(rs.push(v).drop_first() =~= Seq::<WireRecordV>::empty());
        assert(apply_records_model(st, reg, rs.push(v))
            == apply_records_model(apply_record_model(st, reg, v), reg, rs.push(v).drop_first()));
        assert(apply_records_model(apply_record_model(st, reg, v), reg, Seq::<WireRecordV>::empty())
            == apply_record_model(st, reg, v));
        assert(apply_records_model(st, reg, rs) == st);
    } else {
        assert(rs.push(v)[0] == rs[0]);
        assert(rs.push(v).drop_first() =~= rs.drop_first().push(v));
        assert(apply_records_model(st, reg, rs.push(v))
            == apply_records_model(apply_record_model(st, reg, rs[0]), reg, rs.drop_first().push(v)));
        lemma_apply_records_snoc(apply_record_model(st, reg, rs[0]), reg, rs.drop_first(), v);
        assert(apply_records_model(st, reg, rs)
            == apply_records_model(apply_record_model(st, reg, rs[0]), reg, rs.drop_first()));
    }
}

/// Decode a batch and merge it, record by record, into the store and table.
/// A corrupt record aborts the batch with an error; everything decoded
/// before it stays applied.  Running out of data mid-header simply ends the
/// batch.  On success the number of applied records is returned.
pub fn process_message_stream(
    store: &mut CrdtStore,
    table: &mut EntityIdTable,
    registry: &ComponentRegistry,
    buf: &Vec<u8>,
) -> (r: Result<usize, DecodeError>)
    requires
        old(store).wf(),
        old(table).wf(),
        registry.wf(),
        store_follows_registry(*old(store), registry.model()),
    ensures
        final(store).wf(),
        final(table).wf(),
        store_follows_registry(*final(store), registry.model()),
        ({
            let batch = spec_batch(buf@, 0);
            let st1 = apply_records_model(state_of(*old(store), *old(table)), registry.model(), batch.0);
            &&& state_of(*final(store), *final(table)) == st1
            &&& (r is Ok <==> batch.1)
            &&& (r is Ok ==> r->Ok_0 == batch.0.len())
        }),
{
    let ghost st0 = state_of(*old(store), *old(table));
    let ghost reg = registry.model();
    let mut pos: usize = 0;
    let mut count: usize = 0;
    let ghost mut done: Seq<WireRecordV> = Seq::empty();
    loop
        invariant
            store.wf(),
            table.wf(),
            registry.wf(),
            reg == registry.model(),
            pos <= buf@.len(),
            count == done.len(),
            count <= pos,
            state_of(*store, *table) == apply_records_model(st0, reg, done),
            st0 == state_of(*old(store), *old(table)),
            store_follows_registry(*store, reg),
            spec_batch(buf@, 0).0 == done + spec_batch(buf@, pos as int).0,
            spec_batch(buf@, 0).1 == spec_batch(buf@, pos as int).1,
        decreases buf@.len() - pos,
    {
        match decode_record(buf, pos) {
            DecodeStep::Incomplete => {
                proof {
                    assert(spec_batch(buf@, pos as int) == (Seq::<WireRecordV>::empty(), true));
                    assert(spec_batch(buf@, 0).0 =~= done);
                }
                return Ok(count);
            }
            DecodeStep::Corrupt => {
                proof {
                    assert(spec_batch(buf@, pos as int) == (Seq::<WireRecordV>::empty(), false));
                    assert(spec_batch(buf@, 0).0 =~= done);
                }
                return Err(DecodeError);
            }
            DecodeStep::Complete(rec, new_pos) => {
                let ghost recv = rec@;
                let ghost pre = state_of(*store, *table);
                let ghost spre = *store;
                let current = table.note_write(rec.entity);
                proof {
                    if slots_is_dead(pre.slots, recv.entity) {
                        assert(state_of(*store, *table) == pre);
                    } else {
                        assert(state_of(*store, *table) == note_write_model(pre, recv.entity));
                    }
                }
                let ghost st_noted = state_of(*store, *table);
                if current {
                    match registry.lookup(rec.component) {
                        None => {
                            proof {
                                assert(state_of(*store, *table)
                                    == apply_record_model(pre, reg, recv));
                            }
                        }
                        Some(CrdtKind::Lww) => {
                            if rec.kind == KIND_LWW {
                                let (ts, value) = split_lww_payload(&rec.payload);
                                proof {
                                    assert(value.deep_view() =~~= (if recv.payload.len() > 8 {
                                        Some(recv.payload.skip(8))
                                    } else {
                                        None::<Seq<u8>>
                                    }));
                                    assert(!go_has_component(*store, recv.component)) by {
                                        if go_has_component(*store, recv.component) {
                                            let k = choose|k: u64|
                                                #[trigger] store.go_model().contains_key(k)
                                                && key_component(k) == recv.component;
                                        }
                                    }
                                }
                                store.apply_lww(rec.component, rec.entity, ts, value);
                                proof {
                                    lemma_key_parts(recv.component, recv.entity);
                                    assert forall|k: u64| #[trigger] store.lww_model().contains_key(k)
                                        implies reg.contains_key(key_component(k) as u64)
                                            && reg[key_component(k) as u64] == CrdtKind::Lww by {
                                        if k != spec_crdt_key(recv.component, recv.entity) {
                                            assert(spre.lww_model().contains_key(k));
                                        }
                                    }
                                }
                                proof {
                                    assert(state_of(*store, *table) == lww_apply_model(
                                        st_noted,
                                        spec_crdt_key(recv.component, recv.entity),
                                        ts,
                                        if recv.payload.len() > 8 {
                                            Some(recv.payload.skip(8))
                                        } else {
                                            None::<Seq<u8>>
                                        },
                                    ));
                                    assert(state_of(*store, *table)
                                        == apply_record_model(pre, reg, recv));
                                }
                            } else {
                                proof {
                                    assert(state_of(*store, *table)
                                        == apply_record_model(pre, reg, recv));
                                }
                            }
                        }
                        Some(CrdtKind::Go) => {
                            if rec.kind == KIND_GO {
                                proof {
                                    crate::crdt::lemma_go_entries_correspond(
                                        *store,
                                        spec_crdt_key(recv.component, recv.entity),
                                    );
                                    assert(!lww_has_component(*store, recv.component)) by {
                                        if lww_has_component(*store, recv.component) {
                                            let k = choose|k: u64|
                                                #[trigger] store.lww_model().contains_key(k)
                                                && key_component(k) == recv.component;
                                        }
                                    }
                                }
                                store.apply_go(rec.component, rec.entity, rec.payload);
                                proof {
                                    lemma_key_parts(recv.component, recv.entity);
                                    assert forall|k: u64| #[trigger] store.go_model().contains_key(k)
                                        implies reg.contains_key(key_component(k) as u64)
                                            && reg[key_component(k) as u64] == CrdtKind::Go by {
                                        if k != spec_crdt_key(recv.component, recv.entity) {
                                            assert(spre.go_model().contains_key(k));
                                        }
                                    }
                                }
                                proof {
                                    assert(state_of(*store, *table) == go_apply_model(
                                        st_noted,
                                        spec_crdt_key(recv.component, recv.entity),
                                        recv.payload,
                                    ));
                                    assert(state_of(*store, *table)
                                        == apply_record_model(pre, reg, recv));
                                }
                            } else {
                                proof {
                                    assert(state_of(*store, *table)
                                        == apply_record_model(pre, reg, recv));
                                }
                            }
                        }
                    }
                } else {
                    proof {
                        assert(state_of(*store, *table) == apply_record_model(pre, reg, recv));
                    }
                }
                proof {
                    assert(state_of(*store, *table) == apply_record_model(pre, reg, recv));
                    lemma_apply_records_snoc(st0, reg, done, recv);
                    assert(done.push(recv) + spec_batch(buf@, new_pos as int).0
                        =~= done + (seq![recv] + spec_batch(buf@, new_pos as int).0));
                    assert(spec_batch(buf@, pos as int).0
                        == seq![recv] + spec_batch(buf@, new_pos as int).0);
                    assert(spec_batch(buf@, pos as int).1 == spec_batch(buf@, new_pos as int).1);
                }
                proof {
                    done = done.push(recv);
                }
                pos = new_pos;
                count = count + 1;
            }
        }
    }
}

} // verus!
