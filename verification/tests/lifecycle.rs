use scene_sync::lifecycle::{AssetStatus, LifecycleAction, LoadPhase, SceneEvent, SceneState,
    receives_ticks, transition};

#[test]
fn loading_advances_one_asset_at_a_time() {
    let (s, a) = transition(SceneState::Unloaded, SceneEvent::StartLoad);
    assert_eq!(s, SceneState::Loading(LoadPhase::EntityManifest));
    assert_eq!(a, LifecycleAction::Keep);

    let (s, _) = transition(s, SceneEvent::Asset(AssetStatus::Loaded));
    assert_eq!(s, SceneState::Loading(LoadPhase::SceneMeta));
    let (s, _) = transition(s, SceneEvent::Asset(AssetStatus::Pending));
    assert_eq!(s, SceneState::Loading(LoadPhase::SceneMeta));
    let (s, _) = transition(s, SceneEvent::Asset(AssetStatus::Loaded));
    assert_eq!(s, SceneState::Loading(LoadPhase::ProgramCode));
    let (s, a) = transition(s, SceneEvent::Asset(AssetStatus::Loaded));
    assert_eq!(s, SceneState::Running);
    assert_eq!(a, LifecycleAction::Keep);
}

#[test]
fn a_failed_asset_removes_the_scene_silently() {
    let s = SceneState::Loading(LoadPhase::SceneMeta);
    let (s, a) = transition(s, SceneEvent::Asset(AssetStatus::Failed));
    assert_eq!(s, SceneState::Unloading);
    assert_eq!(a, LifecycleAction::Despawn);
}

#[test]
fn a_running_scene_breaks_on_a_fault_and_stops_ticking() {
    let (s, a) = transition(SceneState::Running, SceneEvent::Fault);
    assert_eq!(s, SceneState::Broken);
    assert_eq!(a, LifecycleAction::Keep);
    assert!(!receives_ticks(s));
    // Broken is sticky: further faults change nothing.
    let (s2, _) = transition(s, SceneEvent::Fault);
    assert_eq!(s2, SceneState::Broken);
    // Only a scheduler stop moves it on, to teardown.
    let (s3, a3) = transition(s, SceneEvent::Stop);
    assert_eq!(s3, SceneState::Unloading);
    assert_eq!(a3, LifecycleAction::Teardown);
}

#[test]
fn a_scheduler_stop_tears_a_running_scene_down() {
    let (s, a) = transition(SceneState::Running, SceneEvent::Stop);
    assert_eq!(s, SceneState::Unloading);
    assert_eq!(a, LifecycleAction::Teardown);
}

#[test]
fn unloading_is_terminal() {
    for e in [
        SceneEvent::StartLoad,
        SceneEvent::Asset(AssetStatus::Loaded),
        SceneEvent::Asset(AssetStatus::Failed),
        SceneEvent::Fault,
        SceneEvent::Stop,
    ] {
        let (s, a) = transition(SceneState::Unloading, e);
        assert_eq!(s, SceneState::Unloading);
        assert_eq!(a, LifecycleAction::Keep);
    }
}

#[test]
fn only_running_scenes_receive_ticks() {
    assert!(receives_ticks(SceneState::Running));
    assert!(!receives_ticks(SceneState::Unloaded));
    assert!(!receives_ticks(SceneState::Loading(LoadPhase::ProgramCode)));
    assert!(!receives_ticks(SceneState::Broken));
    assert!(!receives_ticks(SceneState::Unloading));
}
