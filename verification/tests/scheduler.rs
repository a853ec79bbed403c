use scene_sync::pointers::PointerResult;
use scene_sync::scheduler::{ActiveScene, SceneScheduler, in_range};

fn realm(scenes: &[(&str, &str)]) -> Vec<(String, String)> {
    scenes
        .iter()
        .map(|(h, u)| (String::from(*h), String::from(*u)))
        .collect()
}

#[test]
fn pinned_scenes_block_distance_scheduling_until_running() {
    let mut s = SceneScheduler::new();

    // A realm change pins scene hash "hash-h" via its manifest.
    let to_load = s.realm_change(&realm(&[("hash-h", "urn:h")]));
    assert_eq!(to_load, vec![String::from("urn:h")]);

    // A proximity cell at distance 5 (< load radius 10) is also pending,
    // but while the pinned scene is unresolved nothing is scheduled: no
    // spawn, no despawn, not even a pointer request.
    let actions = s.tick((5, 5), 10, &vec![]);
    assert!(actions.spawn.is_empty());
    assert!(actions.despawn.is_empty());
    assert!(actions.request.is_none());

    // The pinned scene's definition resolves and its instance exists, but
    // it has not reached the running state yet: still suspended.
    s.note_scene_defined(&vec![(40, 40)], String::from("hash-h"), 900);
    let actions = s.tick((5, 5), 10, &vec![]);
    assert!(actions.spawn.is_empty());
    assert!(actions.request.is_none());

    // Once the pinned scene is running, distance scheduling resumes: the
    // unresolved cells within the radius are batched into one request.
    let actions = s.tick((5, 5), 10, &vec![900]);
    let request = actions.request.expect("a pointer request");
    assert!(request.contains(&(0, 0)));
    for p in request.iter() {
        assert!(s.pointer_of(*p).is_none());
    }
    // The realm-pinned scene, although out of range, is not torn down.
    assert!(actions.despawn.is_empty());
}

#[test]
fn negative_cache_suppresses_repeat_requests() {
    let mut s = SceneScheduler::new();
    // An empty realm: nothing pinned, so distance scheduling may run.
    let to_load = s.realm_change(&realm(&[]));
    assert!(to_load.is_empty());

    // Focus inside cell (2,3): its cells get requested.
    let actions = s.tick((2 * 16 + 8, 3 * 16 + 8), 4, &vec![]);
    let request = actions.request.expect("a pointer request");
    assert!(request.contains(&(2, 3)));

    // The lookup answers: nothing exists at any requested cell.
    s.pointer_response(&request, &vec![]);
    assert!(matches!(s.pointer_of((2, 3)), Some(PointerResult::Nothing(2, 3))));

    // A later pass computing the same required set must not request again.
    let actions = s.tick((2 * 16 + 8, 3 * 16 + 8), 4, &vec![]);
    assert!(actions.request.is_none());
    assert!(actions.spawn.is_empty());
}

#[test]
fn resolved_cells_in_range_become_spawn_requests_once() {
    let mut s = SceneScheduler::new();
    s.realm_change(&realm(&[]));

    let focus = (8, 8);
    let actions = s.tick(focus, 4, &vec![]);
    let request = actions.request.expect("a pointer request");
    assert!(request.contains(&(0, 0)));

    // The lookup finds a scene at (0,0).
    let results = vec![ActiveScene { hash: String::from("hash-a"), parcels: vec![(0, 0)] }];
    s.pointer_response(&request, &results);
    assert!(matches!(s.pointer_of((0, 0)), Some(PointerResult::Exists(h)) if h == "hash-a"));

    // The resolved cell spawns.
    let actions = s.tick(focus, 4, &vec![]);
    assert!(actions.request.is_none());
    assert_eq!(actions.spawn.len(), 1);
    assert_eq!(actions.spawn[0].parcel, (0, 0));
    assert_eq!(actions.spawn[0].hash, String::from("hash-a"));

    // Once the instance is live, no further spawn is asked for.
    s.note_spawned((0, 0), 7);
    let actions = s.tick(focus, 4, &vec![7]);
    assert!(actions.spawn.is_empty());
    assert!(actions.despawn.is_empty());
    assert_eq!(s.live_at((0, 0)), Some(7));
}

#[test]
fn scenes_out_of_range_are_torn_down() {
    let mut s = SceneScheduler::new();
    s.realm_change(&realm(&[]));
    s.note_scene_defined(&vec![(0, 0)], String::from("hash-a"), 7);

    // Walk far away: the scene is no longer required.
    let actions = s.tick((1000, 1000), 10, &vec![7]);
    assert_eq!(actions.despawn, vec![7]);
    assert_eq!(s.live_at((0, 0)), None);
    // Its pointer stays cached within the realm session.
    assert!(matches!(s.pointer_of((0, 0)), Some(PointerResult::Exists(_))));
}

#[test]
fn realm_change_purges_foreign_pointers_and_scenes() {
    let mut s = SceneScheduler::new();
    s.realm_change(&realm(&[]));

    let focus = (8, 8);
    let actions = s.tick(focus, 20, &vec![]);
    let request = actions.request.expect("a pointer request");
    let results = vec![ActiveScene { hash: String::from("hash-a"), parcels: vec![(0, 0)] }];
    s.pointer_response(&request, &results);
    s.note_spawned((0, 0), 7);

    // A new realm keeps "hash-a" out of its manifest: its pointer, every
    // negative entry, and the live scene are all purged.
    let to_load = s.realm_change(&realm(&[("hash-b", "urn:b")]));
    assert_eq!(to_load, vec![String::from("urn:b")]);
    assert!(s.pointer_of((0, 0)).is_none());
    assert_eq!(s.live_at((0, 0)), None);

    // A realm keeping the hash would have kept the pointer.
    let mut s2 = SceneScheduler::new();
    s2.realm_change(&realm(&[]));
    let actions = s2.tick(focus, 20, &vec![]);
    let request = actions.request.expect("a pointer request");
    let results = vec![ActiveScene { hash: String::from("hash-a"), parcels: vec![(0, 0)] }];
    s2.pointer_response(&request, &results);
    let to_load = s2.realm_change(&realm(&[("hash-a", "urn:a")]));
    assert!(to_load.is_empty());
    assert!(matches!(s2.pointer_of((0, 0)), Some(PointerResult::Exists(_))));
}

#[test]
fn a_scene_spanning_cells_keeps_one_pointer() {
    let mut s = SceneScheduler::new();
    s.realm_change(&realm(&[]));
    let actions = s.tick((8, 8), 20, &vec![]);
    let request = actions.request.expect("a pointer request");
    let results = vec![ActiveScene {
        hash: String::from("hash-wide"),
        parcels: vec![(0, 0), (0, 1)],
    }];
    s.pointer_response(&request, &results);
    // The bijection holds one cell per hash: the last reported cell wins,
    // and the displaced listed cell, having been requested, is cached
    // negative so it is never requested again.
    assert!(matches!(s.pointer_of((0, 1)), Some(PointerResult::Exists(_))));
    assert!(matches!(s.pointer_of((0, 0)), Some(PointerResult::Nothing(0, 0))));
    let actions = s.tick((8, 8), 20, &vec![]);
    assert!(actions.request.is_none());
}

#[test]
fn only_one_lookup_is_in_flight() {
    let mut s = SceneScheduler::new();
    s.realm_change(&realm(&[]));
    let actions = s.tick((8, 8), 4, &vec![]);
    assert!(actions.request.is_some());
    // Until the answer arrives, further passes queue no second request.
    let actions2 = s.tick((500, 500), 4, &vec![]);
    assert!(actions2.request.is_none());
}

#[test]
fn negative_coordinates_use_floor_cells() {
    let mut s = SceneScheduler::new();
    s.realm_change(&realm(&[]));
    // Focus inside cell (-1,-1), which spans [-16,0) on both axes.
    let actions = s.tick((-8, -8), 4, &vec![]);
    let request = actions.request.expect("a pointer request");
    assert!(request.contains(&(-1, -1)));
    assert!(!request.contains(&(1, 1)));

    let results = vec![ActiveScene { hash: String::from("hash-n"), parcels: vec![(-1, -1)] }];
    s.pointer_response(&request, &results);
    let actions = s.tick((-8, -8), 4, &vec![]);
    assert_eq!(actions.spawn.len(), 1);
    assert_eq!(actions.spawn[0].parcel, (-1, -1));
}

#[test]
fn range_test_measures_to_the_nearest_cell_point() {
    // Cell (2,0) spans x in [32,48]; from x=20 the nearest point is 12 away.
    assert!(!in_range((20, 8), 12, (2, 0)));
    assert!(in_range((20, 8), 13, (2, 0)));
    // The viewer's own cell is at distance zero.
    assert!(in_range((20, 8), 1, (1, 0)));
}

#[test]
fn a_failed_lookup_is_retried_on_a_later_pass() {
    let mut s = SceneScheduler::new();
    s.realm_change(&realm(&[]));
    let actions = s.tick((8, 8), 4, &vec![]);
    let first = actions.request.expect("a pointer request");
    // While the lookup is outstanding nothing else is requested; once it
    // fails, the same cells are requested again.
    assert!(s.tick((8, 8), 4, &vec![]).request.is_none());
    s.request_failed();
    let retry = s.tick((8, 8), 4, &vec![]).request.expect("a retry");
    assert_eq!(first, retry);
}
