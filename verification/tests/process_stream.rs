use scene_sync::codec::{DecodeStep, KIND_GO, KIND_LWW, WireRecord, build_lww_payload,
    decode_record, encode_record, split_lww_payload};
use scene_sync::crdt::CrdtStore;
use scene_sync::entity_id::SceneEntityId;
use scene_sync::crdt::CrdtKind;
use scene_sync::process::{ComponentRegistry, encode_batch, process_message_stream};
use scene_sync::table::EntityIdTable;

fn e(id: u16, generation: u16) -> SceneEntityId {
    SceneEntityId::new(id, generation)
}

fn lww_record(entity: SceneEntityId, component: u32, ts: u64, value: Option<Vec<u8>>) -> WireRecord {
    WireRecord { entity, component, kind: KIND_LWW, payload: build_lww_payload(ts, &value) }
}

fn go_record(entity: SceneEntityId, component: u32, payload: Vec<u8>) -> WireRecord {
    WireRecord { entity, component, kind: KIND_GO, payload }
}

fn registry() -> ComponentRegistry {
    let mut r = ComponentRegistry::new();
    r.register(1, CrdtKind::Lww);
    r.register(2, CrdtKind::Go);
    r
}

#[test]
fn a_batch_routes_records_by_registered_kind() {
    let mut store = CrdtStore::new();
    let mut table = EntityIdTable::new(0);
    let reg = registry();
    let ent = e(5, 1);

    let mut buf: Vec<u8> = Vec::new();
    encode_record(&lww_record(ent, 1, 10, Some(vec![1])), &mut buf);
    encode_record(&go_record(ent, 2, vec![2]), &mut buf);

    let applied = process_message_stream(&mut store, &mut table, &reg, &buf).unwrap();
    assert_eq!(applied, 2);

    let batch = store.take_updates();
    assert_eq!(batch.lww.len(), 1);
    assert_eq!(batch.lww[0].component, 1);
    assert_eq!(batch.lww[0].timestamp, 10);
    assert_eq!(batch.lww[0].value, Some(vec![1]));
    assert_eq!(batch.go.len(), 1);
    assert_eq!(batch.go[0].component, 2);
    assert_eq!(batch.go[0].payload, vec![2]);

    // The first write made the entity nascent.
    let (born, died) = table.take_census();
    assert_eq!(born, vec![ent]);
    assert!(died.is_empty());
}

#[test]
fn unknown_component_ids_are_ignored() {
    let mut store = CrdtStore::new();
    let mut table = EntityIdTable::new(0);
    let reg = registry();
    let ent = e(6, 1);

    let mut buf: Vec<u8> = Vec::new();
    encode_record(&lww_record(ent, 999, 10, Some(vec![1])), &mut buf);

    let applied = process_message_stream(&mut store, &mut table, &reg, &buf).unwrap();
    assert_eq!(applied, 1);
    let batch = store.take_updates();
    assert!(batch.lww.is_empty());
    assert!(batch.go.is_empty());
}

#[test]
fn a_corrupt_record_aborts_the_batch_but_keeps_prior_state() {
    let mut store = CrdtStore::new();
    let mut table = EntityIdTable::new(0);
    let reg = registry();
    let ent = e(7, 1);

    let mut buf: Vec<u8> = Vec::new();
    encode_record(&lww_record(ent, 1, 4, Some(vec![9])), &mut buf);
    // A header asserting far more payload than the buffer holds.
    buf.extend_from_slice(&[200, 0, 0, 0, 1, 0, 0, 0, 1, 0, 0, 0, KIND_LWW, 1]);

    assert!(process_message_stream(&mut store, &mut table, &reg, &buf).is_err());

    // The record decoded before the bad one stays applied.
    let batch = store.take_updates();
    assert_eq!(batch.lww.len(), 1);
    assert_eq!(batch.lww[0].value, Some(vec![9]));
}

#[test]
fn a_partial_trailing_record_just_ends_the_batch() {
    let mut store = CrdtStore::new();
    let mut table = EntityIdTable::new(0);
    let reg = registry();
    let ent = e(8, 1);

    let mut buf: Vec<u8> = Vec::new();
    encode_record(&go_record(ent, 2, vec![5]), &mut buf);
    buf.extend_from_slice(&[3, 0, 0]); // not even a full header

    let applied = process_message_stream(&mut store, &mut table, &reg, &buf).unwrap();
    assert_eq!(applied, 1);
    let batch = store.take_updates();
    assert_eq!(batch.go.len(), 1);
}

#[test]
fn stale_writes_to_dead_entities_are_dropped() {
    let mut store = CrdtStore::new();
    let mut table = EntityIdTable::new(0);
    let reg = registry();

    let old_gen = e(9, 1);
    let new_gen = e(9, 2);

    let mut buf: Vec<u8> = Vec::new();
    encode_record(&lww_record(new_gen, 1, 1, Some(vec![2])), &mut buf);
    encode_record(&lww_record(old_gen, 1, 9, Some(vec![1])), &mut buf);
    let applied = process_message_stream(&mut store, &mut table, &reg, &buf).unwrap();
    assert_eq!(applied, 2);

    // Only the live generation's write landed.
    let batch = store.take_updates();
    assert_eq!(batch.lww.len(), 1);
    assert_eq!(batch.lww[0].entity, new_gen);
    assert_eq!(batch.lww[0].value, Some(vec![2]));
}

#[test]
fn kind_mismatch_with_registry_is_ignored() {
    let mut store = CrdtStore::new();
    let mut table = EntityIdTable::new(0);
    let reg = registry();
    let ent = e(3, 1);

    // A grow-only record for a component registered as last-write-wins.
    let mut buf: Vec<u8> = Vec::new();
    encode_record(&go_record(ent, 1, vec![1]), &mut buf);
    let applied = process_message_stream(&mut store, &mut table, &reg, &buf).unwrap();
    assert_eq!(applied, 1);
    let batch = store.take_updates();
    assert!(batch.lww.is_empty());
    assert!(batch.go.is_empty());
}

#[test]
fn a_drained_batch_re_encodes_into_decodable_records() {
    let mut store = CrdtStore::new();
    let mut table = EntityIdTable::new(0);
    let reg = registry();
    let ent = e(4, 1);

    let mut buf: Vec<u8> = Vec::new();
    encode_record(&lww_record(ent, 1, 6, Some(vec![1, 2])), &mut buf);
    encode_record(&go_record(ent, 2, vec![3]), &mut buf);
    process_message_stream(&mut store, &mut table, &reg, &buf).unwrap();

    let batch = store.take_updates();
    let buffers = encode_batch(&batch);
    assert_eq!(buffers.len(), 2);

    // The register record decodes back to the drained update.
    match decode_record(&buffers[0], 0) {
        DecodeStep::Complete(rec, consumed) => {
            assert_eq!(consumed, buffers[0].len());
            assert_eq!(rec.entity, ent);
            assert_eq!(rec.component, 1);
            assert_eq!(rec.kind, KIND_LWW);
            let (ts, value) = split_lww_payload(&rec.payload);
            assert_eq!(ts, 6);
            assert_eq!(value, Some(vec![1, 2]));
        }
        _ => panic!("register record"),
    }
    // The append record decodes back too.
    match decode_record(&buffers[1], 0) {
        DecodeStep::Complete(rec, _) => {
            assert_eq!(rec.component, 2);
            assert_eq!(rec.kind, KIND_GO);
            assert_eq!(rec.payload, vec![3]);
        }
        _ => panic!("append record"),
    }
}
