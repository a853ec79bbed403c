use scene_sync::address::as_h160;
use scene_sync::codec::{KIND_GO, KIND_LWW, WireRecord, build_lww_payload, encode_record};
use scene_sync::context::RendererSceneContext;
use scene_sync::entity_id::SceneEntityId;
use scene_sync::lifecycle::{LifecycleAction, LoadPhase, SceneEvent, SceneState, transition};
use scene_sync::message::{AdapterDecision, NetworkMessage, parse_fixed_adapter};
use scene_sync::crdt::CrdtKind;
use scene_sync::process::ComponentRegistry;

fn e(id: u16, generation: u16) -> SceneEntityId {
    SceneEntityId::new(id, generation)
}

fn new_ctx(hash: &str, base: (i32, i32), root: u64, priority: u32) -> RendererSceneContext {
    RendererSceneContext::new(
        String::from(hash),
        false,
        String::from("a scene"),
        base,
        (0, 0, 16, 16),
        vec![(8, 0, 8)],
        root,
        (1, 1),
        priority,
    )
}

#[test]
fn a_fresh_context_owns_only_the_root() {
    let ctx = new_ctx("hash-x", (3, -4), 55, 1000);
    assert_eq!(ctx.lookup(SceneEntityId::root()), Some(55));
    assert_eq!(ctx.lookup(e(1, 0)), None);
    assert!(!ctx.broken);
    assert!(!ctx.in_flight);
    assert_eq!(ctx.tick_number, 0);
    assert!(ctx.should_tick());
}

fn registry() -> ComponentRegistry {
    let mut r = ComponentRegistry::new();
    r.register(4, CrdtKind::Lww);
    r.register(5, CrdtKind::Go);
    r
}

#[test]
fn context_tracks_entities_and_renderer_writes() {
    let mut ctx = new_ctx("hash-x", (0, 0), 1, 1000);
    let reg = registry();
    let ent = e(9, 0);
    ctx.associate(ent, 77);
    assert_eq!(ctx.lookup(ent), Some(77));
    ctx.kill(ent);
    assert_eq!(ctx.lookup(ent), None);
    assert!(ctx.is_dead(ent));

    // A renderer-originated write lands at timestamp 0 and flows out on
    // the next drain; a clear writes a tombstone one tick later.
    ctx.update_crdt(&reg, 4, ent, vec![1, 2]);
    let batch = ctx.take_updates(&reg);
    assert_eq!(batch.lww.len(), 1);
    assert_eq!(batch.lww[0].timestamp, 0);
    assert_eq!(batch.lww[0].value, Some(vec![1, 2]));
    ctx.clear_crdt(&reg, 4, ent);
    let batch = ctx.take_updates(&reg);
    assert_eq!(batch.lww[0].timestamp, 1);
    assert_eq!(batch.lww[0].value, None);
}

#[test]
fn renderer_writes_are_routed_and_batches_stay_partitioned() {
    let mut ctx = new_ctx("hash-x", (0, 0), 1, 1000);
    let reg = registry();
    let ent = e(3, 0);
    // Component 4 is a register, component 5 a grow-only stream: the same
    // write entry point routes each to its own map.
    ctx.update_crdt(&reg, 4, ent, vec![10]);
    ctx.update_crdt(&reg, 5, ent, vec![20]);
    ctx.update_crdt(&reg, 5, ent, vec![21]);
    let batch = ctx.take_updates(&reg);
    assert_eq!(batch.lww.len(), 1);
    assert_eq!(batch.lww[0].component, 4);
    assert_eq!(batch.go.len(), 2);
    assert_eq!(batch.go[0].component, 5);
    assert_eq!(batch.go[1].component, 5);
    // No component id appears on both sides of the batch.
    for l in batch.lww.iter() {
        for g in batch.go.iter() {
            assert_ne!(l.component, g.component);
        }
    }
}

#[test]
fn tick_bookkeeping_accumulates() {
    let mut ctx = new_ctx("h", (0, 0), 1, 1);
    ctx.note_tick(16_000);
    ctx.note_tick(17_000);
    assert_eq!(ctx.tick_number, 2);
    assert_eq!(ctx.last_update_micros, 17_000);
    assert_eq!(ctx.total_runtime_micros, 33_000);
    ctx.broken = true;
    assert!(!ctx.should_tick());
}

#[test]
fn the_empty_definition_outcome_stops_a_load_quietly() {
    let s = SceneState::Loading(LoadPhase::EntityManifest);
    let (s2, action) = transition(s, SceneEvent::DefinitionEmpty);
    assert_eq!(s2, SceneState::Unloaded);
    assert_eq!(action, LifecycleAction::Keep);
    // Later loading phases do not take the event: by then a definition exists.
    let s = SceneState::Loading(LoadPhase::SceneMeta);
    assert_eq!(transition(s, SceneEvent::DefinitionEmpty).0, s);
}

#[test]
fn addresses_parse_with_or_without_marker() {
    let hex40 = b"0123456789abcdef0123456789ABCDEF01234567";
    let mut with_marker = b"0x".to_vec();
    with_marker.extend_from_slice(hex40);

    let bare = as_h160(hex40).expect("bare form");
    let marked = as_h160(&with_marker).expect("marked form");
    assert_eq!(bare.bytes, marked.bytes);
    assert_eq!(bare.bytes.len(), 20);
    assert_eq!(bare.bytes[0], 0x01);
    assert_eq!(bare.bytes[1], 0x23);
    assert_eq!(bare.bytes[19], 0x67);

    // A doubly marked address still parses: every marker is stripped.
    let mut doubly = b"0x0x".to_vec();
    doubly.extend_from_slice(hex40);
    assert_eq!(as_h160(&doubly).expect("doubly marked").bytes, bare.bytes);

    // Wrong length, odd length, and non-digits are rejected.
    assert!(as_h160(b"0123abcd").is_none());
    assert!(as_h160(b"0123456789abcdef0123456789ABCDEF0123456").is_none());
    assert!(as_h160(b"zz23456789abcdef0123456789ABCDEF01234567").is_none());
}

#[test]
fn network_messages_carry_their_delivery_class() {
    let m = NetworkMessage::unreliable(vec![1, 2, 3]);
    assert!(m.unreliable);
    assert_eq!(m.data, vec![1, 2, 3]);
    let m = NetworkMessage::reliable(vec![4]);
    assert!(!m.unreliable);
    assert_eq!(m.data, vec![4]);
}

#[test]
fn fixed_adapter_strings_decide_the_transport() {
    let d = parse_fixed_adapter(&b"ws-room:wss://example.test/rooms/plaza".to_vec());
    match d {
        AdapterDecision::WsRoom(address) => {
            assert_eq!(address, b"wss://example.test/rooms/plaza".to_vec());
        }
        _ => panic!("expected a websocket room"),
    }

    assert!(matches!(
        parse_fixed_adapter(&b"offline:".to_vec()),
        AdapterDecision::Offline
    ));
    assert!(matches!(
        parse_fixed_adapter(&b"livekit:wss://elsewhere".to_vec()),
        AdapterDecision::Unrecognised
    ));
    assert!(matches!(
        parse_fixed_adapter(&b"no colon here".to_vec()),
        AdapterDecision::Unrecognised
    ));
}

#[test]
fn block_reasons_form_a_set() {
    let mut ctx = new_ctx("h", (0, 0), 1, 1);
    ctx.block(String::from("no-weather"));
    ctx.block(String::from("paused"));
    ctx.block(String::from("paused"));
    assert_eq!(ctx.blocked.len(), 2);
    assert!(!ctx.should_tick());
    ctx.unblock(&String::from("paused"));
    assert_eq!(ctx.blocked, vec![String::from("no-weather")]);
    ctx.unblock(&String::from("no-weather"));
    assert!(ctx.should_tick());
}

#[test]
fn a_full_update_cycle_cleans_up_after_the_census() {
    let mut ctx = new_ctx("h", (0, 0), 1, 1);
    let mut registry = ComponentRegistry::new();
    registry.register(1, CrdtKind::Lww);
    registry.register(2, CrdtKind::Go);

    // First cycle: generation 1 of slot 6 is born and writes.
    let old_gen = SceneEntityId::new(6, 1);
    let mut buf: Vec<u8> = Vec::new();
    encode_record(
        &WireRecord { entity: old_gen, component: 1, kind: KIND_LWW, payload: build_lww_payload(1, &Some(vec![1])) },
        &mut buf,
    );
    encode_record(
        &WireRecord { entity: old_gen, component: 2, kind: KIND_GO, payload: vec![5] },
        &mut buf,
    );
    let (census, updates) = ctx.run_update_cycle(&registry, &buf).unwrap();
    assert_eq!(census.0, vec![old_gen]);
    assert!(census.1.is_empty());
    assert_eq!(updates.lww.len(), 1);
    assert_eq!(updates.go.len(), 1);
    // The renderer materializes the newborn entity.
    ctx.associate(old_gen, 77);

    // Second cycle: generation 2 displaces it; the census reports the
    // death and nothing drained mentions the dead generation.
    let new_gen = SceneEntityId::new(6, 2);
    let mut buf: Vec<u8> = Vec::new();
    encode_record(
        &WireRecord { entity: new_gen, component: 1, kind: KIND_LWW, payload: build_lww_payload(1, &Some(vec![2])) },
        &mut buf,
    );
    let (census, updates) = ctx.run_update_cycle(&registry, &buf).unwrap();
    assert_eq!(census.0, vec![new_gen]);
    assert_eq!(census.1, vec![old_gen]);
    for u in updates.lww.iter() {
        assert_ne!(u.entity, old_gen);
    }
    for u in updates.go.iter() {
        assert_ne!(u.entity, old_gen);
    }
    assert_eq!(updates.lww.len(), 1);
    assert_eq!(updates.lww[0].entity, new_gen);

    // A corrupt batch aborts the cycle.
    let bad: Vec<u8> = vec![200, 0, 0, 0, 1, 0, 1, 0, 1, 0, 0, 0, 0, 1];
    assert!(ctx.run_update_cycle(&registry, &bad).is_err());
}
