use scene_sync::crdt::{CrdtKind, CrdtStore};
use scene_sync::entity_id::SceneEntityId;

fn e(id: u16, generation: u16) -> SceneEntityId {
    SceneEntityId::new(id, generation)
}

#[test]
fn lww_max_timestamp_wins_and_ties_go_to_last_applied() {
    let mut store = CrdtStore::new();
    let ent = e(10, 0);
    let accepted = store.apply_lww(7, ent, 3, Some(vec![3]));
    assert!(accepted);
    let accepted = store.apply_lww(7, ent, 1, Some(vec![1]));
    assert!(!accepted);
    let accepted = store.apply_lww(7, ent, 5, Some(vec![50]));
    assert!(accepted);
    let accepted = store.apply_lww(7, ent, 5, Some(vec![51]));
    assert!(accepted);

    let batch = store.take_updates();
    assert_eq!(batch.lww.len(), 1);
    assert_eq!(batch.lww[0].component, 7);
    assert_eq!(batch.lww[0].entity, ent);
    assert_eq!(batch.lww[0].timestamp, 5);
    assert_eq!(batch.lww[0].value, Some(vec![51]));
}

#[test]
fn lww_tombstone_is_not_resurrected_by_stale_write() {
    let mut store = CrdtStore::new();
    let ent = e(4, 0);
    assert!(store.apply_lww(1, ent, 2, Some(vec![9])));
    // A newer delete wins.
    assert!(store.apply_lww(1, ent, 8, None));
    // A stale out-of-order write must not resurrect the value.
    assert!(!store.apply_lww(1, ent, 5, Some(vec![7])));
    let batch = store.take_updates();
    assert_eq!(batch.lww.len(), 1);
    assert_eq!(batch.lww[0].timestamp, 8);
    assert_eq!(batch.lww[0].value, None);
}

#[test]
fn go_appends_are_delivered_exactly_once_in_order() {
    let mut store = CrdtStore::new();
    let ent = e(2, 1);
    store.apply_go(9, ent, vec![1]);
    store.apply_go(9, ent, vec![2]);
    store.apply_go(9, ent, vec![3]);

    let batch = store.take_updates();
    assert_eq!(batch.go.len(), 3);
    for (i, upd) in batch.go.iter().enumerate() {
        assert_eq!(upd.component, 9);
        assert_eq!(upd.entity, ent);
        assert_eq!(upd.payload, vec![(i + 1) as u8]);
    }

    // A second drain with no intervening appends delivers nothing.
    let batch = store.take_updates();
    assert_eq!(batch.go.len(), 0);
    assert_eq!(batch.lww.len(), 0);

    // Appends after a drain are delivered, in order, exactly once.
    store.apply_go(9, ent, vec![4]);
    let batch = store.take_updates();
    assert_eq!(batch.go.len(), 1);
    assert_eq!(batch.go[0].payload, vec![4]);
}

#[test]
fn go_lists_keep_per_entity_order_across_keys() {
    let mut store = CrdtStore::new();
    let a = e(1, 0);
    let b = e(2, 0);
    store.apply_go(5, a, vec![10]);
    store.apply_go(5, b, vec![20]);
    store.apply_go(5, a, vec![11]);
    let batch = store.take_updates();
    let a_payloads: Vec<Vec<u8>> = batch
        .go
        .iter()
        .filter(|u| u.entity == a)
        .map(|u| u.payload.clone())
        .collect();
    assert_eq!(a_payloads, vec![vec![10], vec![11]]);
    let b_payloads: Vec<Vec<u8>> = batch
        .go
        .iter()
        .filter(|u| u.entity == b)
        .map(|u| u.payload.clone())
        .collect();
    assert_eq!(b_payloads, vec![vec![20]]);
}

#[test]
fn clean_up_removes_every_entry_of_the_dead_entity() {
    let mut store = CrdtStore::new();
    let dead = e(3, 0);
    let alive = e(4, 0);
    assert!(store.apply_lww(1, dead, 1, Some(vec![1])));
    assert!(store.apply_lww(2, dead, 1, Some(vec![2])));
    assert!(store.apply_lww(1, alive, 1, Some(vec![3])));
    store.apply_go(6, dead, vec![4]);
    store.apply_go(6, alive, vec![5]);

    store.clean_up(&vec![dead]);

    let batch = store.take_updates();
    for upd in batch.lww.iter() {
        assert_ne!(upd.entity, dead);
    }
    for upd in batch.go.iter() {
        assert_ne!(upd.entity, dead);
    }
    assert_eq!(batch.lww.len(), 1);
    assert_eq!(batch.lww[0].entity, alive);
    assert_eq!(batch.go.len(), 1);
    assert_eq!(batch.go[0].entity, alive);

    // The dead entity's register is gone: a write with timestamp 0 is a
    // first write again.
    assert!(store.apply_lww(1, dead, 0, Some(vec![6])));
}

#[test]
fn force_update_supersedes_stored_value_but_not_newer_writes() {
    let mut store = CrdtStore::new();
    let ent = e(8, 0);
    assert!(store.apply_lww(3, ent, 10, Some(vec![1])));
    // The renderer's own write lands one past the stored timestamp.
    store.force_update(3, CrdtKind::Lww, ent, Some(vec![2]));
    let batch = store.take_updates();
    assert_eq!(batch.lww[0].timestamp, 11);
    assert_eq!(batch.lww[0].value, Some(vec![2]));
    // A genuinely newer scene write still wins over it.
    assert!(store.apply_lww(3, ent, 12, Some(vec![3])));
    // A tombstone through the same path.
    store.force_update(3, CrdtKind::Lww, ent, None);
    let batch = store.take_updates();
    assert_eq!(batch.lww[0].timestamp, 13);
    assert_eq!(batch.lww[0].value, None);
}

#[test]
fn replicas_converge_on_distinct_timestamps_in_any_order() {
    let ent = e(1, 0);
    let mut forward = CrdtStore::new();
    forward.apply_lww(2, ent, 3, Some(vec![3]));
    forward.apply_lww(2, ent, 7, Some(vec![7]));
    forward.apply_lww(2, ent, 5, Some(vec![5]));

    let mut backward = CrdtStore::new();
    backward.apply_lww(2, ent, 5, Some(vec![5]));
    backward.apply_lww(2, ent, 7, Some(vec![7]));
    backward.apply_lww(2, ent, 3, Some(vec![3]));

    let a = forward.take_updates();
    let b = backward.take_updates();
    assert_eq!(a.lww[0].timestamp, b.lww[0].timestamp);
    assert_eq!(a.lww[0].value, b.lww[0].value);
    assert_eq!(a.lww[0].timestamp, 7);
}

#[test]
fn go_lists_accumulate_the_same_values_in_any_order() {
    let ent = e(1, 0);
    let mut one = CrdtStore::new();
    one.apply_go(2, ent, vec![1]);
    one.apply_go(2, ent, vec![2]);
    let mut other = CrdtStore::new();
    other.apply_go(2, ent, vec![2]);
    other.apply_go(2, ent, vec![1]);

    let mut a: Vec<Vec<u8>> = one.take_updates().go.into_iter().map(|u| u.payload).collect();
    let mut b: Vec<Vec<u8>> = other.take_updates().go.into_iter().map(|u| u.payload).collect();
    assert_ne!(a, b); // the orders differ...
    a.sort();
    b.sort();
    assert_eq!(a, b); // ...but the collections agree.
}

#[test]
fn force_update_routes_grow_only_components_to_the_list() {
    let mut store = CrdtStore::new();
    let ent = e(5, 0);
    store.force_update(9, CrdtKind::Go, ent, Some(vec![1]));
    store.force_update(9, CrdtKind::Go, ent, Some(vec![2]));
    let batch = store.take_updates();
    assert!(batch.lww.is_empty());
    assert_eq!(batch.go.len(), 2);
    assert_eq!(batch.go[0].payload, vec![1]);
    assert_eq!(batch.go[1].payload, vec![2]);
}
