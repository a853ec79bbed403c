//! The scene lifecycle state machine: which states a scene instance moves
//! through between its first load request and its removal, and what the
//! renderer must do at each step.

use vstd::prelude::*;

verus! {

/// The asset a loading scene is currently waiting for, in order.
#[derive(Clone, Copy, PartialEq, Eq, Structural, Debug)]
pub enum LoadPhase {
    /// The scene's entity definition (its pointer manifest).
    EntityManifest,
    /// The scene's metadata file.
    SceneMeta,
    /// The scene's program code.
    ProgramCode,
}

/// The lifecycle state of one scene instance.
#[derive(Clone, Copy, PartialEq, Eq, Structural, Debug)]
pub enum SceneState {
    /// Not yet requested.
    Unloaded,
    /// Waiting for an asset to resolve.
    Loading(LoadPhase),
    /// Ticking normally.
    Running,
    /// The execution context reported an unrecoverable fault.  The scene is
    /// kept, for visibility and to avoid reload storms, but never ticked.
    Broken,
    /// Being torn down; terminal for this instance.  A future scene at the
    /// same coordinate is a new instance with a fresh store.
    Unloading,
}

/// How the asset a loading scene waits for has resolved.
#[derive(Clone, Copy, PartialEq, Eq, Structural, Debug)]
pub enum AssetStatus {
    Pending,
    Loaded,
    Failed,
}

/// An input to the state machine.
#[derive(Clone, Copy, PartialEq, Eq, Structural, Debug)]
pub enum SceneEvent {
    /// The scheduler asks for the scene.
    StartLoad,
    /// The awaited asset resolved as given.
    Asset(AssetStatus),
    /// The scene's definition resolved but holds nothing (no scene exists
    /// at the requested location): loading stops, the entity is kept.
    DefinitionEmpty,
    /// The execution context reported an unrecoverable fault (for a running
    /// scene, its channel closing).
    Fault,
    /// The scheduler no longer requires the scene.
    Stop,
}

/// What the renderer must do after a transition.
#[derive(Clone, Copy, PartialEq, Eq, Structural, Debug)]
pub enum LifecycleAction {
    /// Nothing beyond adopting the new state.
    Keep,
    /// Remove the scene entity silently: a load failure means the scene
    /// never existed.
    Despawn,
    /// Tear the scene down: drop its context, despawn its owned entities,
    /// remove it from the live set.
    Teardown,
}

/// The transition table.  Loading advances one asset at a time; a failed
/// asset removes the scene outright, and an empty definition simply stops
/// the load (the scene never existed, nothing is despawned); a running
/// scene breaks on a fault and unloads on a scheduler stop; `Broken` leaves
/// only by a stop; `Unloading` is terminal.  Any other event leaves the
/// state alone.
pub open spec fn spec_transition(s: SceneState, e: SceneEvent) -> (SceneState, LifecycleAction) {
    match (s, e) {
        (SceneState::Unloaded, SceneEvent::StartLoad) =>
            (SceneState::Loading(LoadPhase::EntityManifest), LifecycleAction::Keep),
        (SceneState::Loading(phase), SceneEvent::Asset(AssetStatus::Loaded)) => match phase {
            LoadPhase::EntityManifest => (SceneState::Loading(LoadPhase::SceneMeta), LifecycleAction::Keep),
            LoadPhase::SceneMeta => (SceneState::Loading(LoadPhase::ProgramCode), LifecycleAction::Keep),
            LoadPhase::ProgramCode => (SceneState::Running, LifecycleAction::Keep),
        },
        (SceneState::Loading(_), SceneEvent::Asset(AssetStatus::Failed)) =>
            (SceneState::Unloading, LifecycleAction::Despawn),
        (SceneState::Loading(LoadPhase::EntityManifest), SceneEvent::DefinitionEmpty) =>
            (SceneState::Unloaded, LifecycleAction::Keep),
        (SceneState::Loading(_), SceneEvent::Stop) =>
            (SceneState::Unloading, LifecycleAction::Teardown),
        (SceneState::Running, SceneEvent::Fault) =>
            (SceneState::Broken, LifecycleAction::Keep),
        (SceneState::Running, SceneEvent::Stop) =>
            (SceneState::Unloading, LifecycleAction::Teardown),
        (SceneState::Broken, SceneEvent::Stop) =>
            (SceneState::Unloading, LifecycleAction::Teardown),
        _ => (s, LifecycleAction::Keep),
    }
}

/// Only a running scene receives tick messages.
pub open spec fn spec_receives_ticks(s: SceneState) -> bool {
    s == SceneState::Running
}

/// Drive the state machine one step.
pub fn transition(s: SceneState, e: SceneEvent) -> (r: (SceneState, LifecycleAction))
    ensures
        r == spec_transition(s, e),
{
    match (s, e) {
        (SceneState::Unloaded, SceneEvent::StartLoad) =>
            (SceneState::Loading(LoadPhase::EntityManifest), LifecycleAction::Keep),
        (SceneState::Loading(phase), SceneEvent::Asset(AssetStatus::Loaded)) => match phase {
            LoadPhase::EntityManifest => (SceneState::Loading(LoadPhase::SceneMeta), LifecycleAction::Keep),
            LoadPhase::SceneMeta => (SceneState::Loading(LoadPhase::ProgramCode), LifecycleAction::Keep),
            LoadPhase::ProgramCode => (SceneState::Running, LifecycleAction::Keep),
        },
        (SceneState::Loading(_), SceneEvent::Asset(AssetStatus::Failed)) =>
            (SceneState::Unloading, LifecycleAction::Despawn),
        (SceneState::Loading(LoadPhase::EntityManifest), SceneEvent::DefinitionEmpty) =>
            (SceneState::Unloaded, LifecycleAction::Keep),
        (SceneState::Loading(_), SceneEvent::Stop) =>
            (SceneState::Unloading, LifecycleAction::Teardown),
        (SceneState::Running, SceneEvent::Fault) =>
            (SceneState::Broken, LifecycleAction::Keep),
        (SceneState::Running, SceneEvent::Stop) =>
            (SceneState::Unloading, LifecycleAction::Teardown),
        (SceneState::Broken, SceneEvent::Stop) =>
            (SceneState::Unloading, LifecycleAction::Teardown),
        (s2, _) => (s2, LifecycleAction::Keep),
    }
}

/// Whether the scene should receive ticks in this state.
pub fn receives_ticks(s: SceneState) -> (r: bool)
    ensures
        r == spec_receives_ticks(s),
{
    matches!(s, SceneState::Running)
}

/// `Unloading` is terminal: no event leaves it.
pub proof fn lemma_unloading_terminal(e: SceneEvent)
    ensures
        spec_transition(SceneState::Unloading, e).0 == SceneState::Unloading,
{
}

/// A broken scene never receives ticks again: it can only stay broken or be
/// torn down, and neither state is ticked.
pub proof fn lemma_broken_stays_quiet(e: SceneEvent)
    ensures
        !spec_receives_ticks(spec_transition(SceneState::Broken, e).0),
        spec_transition(SceneState::Broken, e).0 == SceneState::Broken
            || spec_transition(SceneState::Broken, e).0 == SceneState::Unloading,
{
}

/// The only way into `Running` is finishing the last loading phase, and the
/// only ways out are a fault or a scheduler stop.
pub proof fn lemma_running_boundaries(s: SceneState, e: SceneEvent)
    ensures
        spec_transition(s, e).0 == SceneState::Running && s != SceneState::Running
            ==> s == SceneState::Loading(LoadPhase::ProgramCode)
                && e == SceneEvent::Asset(AssetStatus::Loaded),
        s == SceneState::Running && spec_transition(s, e).0 != SceneState::Running
            ==> e == SceneEvent::Fault || e == SceneEvent::Stop,
{
}

} // verus!
