use scene_sync::entity_id::SceneEntityId;
use scene_sync::table::EntityIdTable;

fn e(id: u16, generation: u16) -> SceneEntityId {
    SceneEntityId::new(id, generation)
}

#[test]
fn generation_reuse_after_kill() {
    let mut table = EntityIdTable::new(100);
    let id_gen1 = e(7, 1);
    let id_gen2 = e(7, 2);

    table.associate(id_gen1, 501);
    assert_eq!(table.lookup(id_gen1), Some(501));

    table.kill(id_gen1);
    table.associate(id_gen2, 502);

    assert_eq!(table.lookup(id_gen1), None);
    assert_eq!(table.lookup(id_gen2), Some(502));
    assert!(table.is_dead(id_gen1));
    assert!(!table.is_dead(id_gen2));
}

#[test]
fn kill_is_idempotent() {
    let mut table = EntityIdTable::new(100);
    let ent = e(3, 0);
    table.associate(ent, 42);
    table.kill(ent);
    assert_eq!(table.lookup(ent), None);
    assert!(table.is_dead(ent));
    // A duplicate death message changes nothing.
    table.kill(ent);
    assert!(table.is_dead(ent));
    assert_eq!(table.lookup(e(3, 1)), None);
}

#[test]
fn root_is_live_from_the_start() {
    let table = EntityIdTable::new(77);
    assert_eq!(table.lookup(SceneEntityId::root()), Some(77));
    assert!(!table.is_dead(SceneEntityId::root()));
    assert_eq!(table.lookup(SceneEntityId::player()), None);
    assert_eq!(table.lookup(SceneEntityId::camera()), None);
}

#[test]
fn lookup_distinguishes_unborn_and_dead() {
    let mut table = EntityIdTable::new(1);
    let young = e(5, 0);
    let old = e(5, 2);
    // Not yet born: neither live nor dead.
    assert_eq!(table.lookup(old), None);
    assert!(!table.is_dead(old));
    table.associate(old, 9);
    // The slot moved past generation 0: that id is dead now.
    assert_eq!(table.lookup(young), None);
    assert!(table.is_dead(young));
}

#[test]
fn note_write_records_births_and_displaced_deaths() {
    let mut table = EntityIdTable::new(1);
    let first = e(9, 1);
    assert!(table.note_write(first));
    table.associate(first, 300);

    // A write for a later generation displaces the live occupant.
    let second = e(9, 3);
    assert!(table.note_write(second));

    // A stale write to the dead generation is rejected.
    assert!(!table.note_write(first));

    let (born, died) = table.take_census();
    assert_eq!(born, vec![first, second]);
    assert_eq!(died, vec![first]);

    // The census drains.
    let (born, died) = table.take_census();
    assert!(born.is_empty());
    assert!(died.is_empty());
}
