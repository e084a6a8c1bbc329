//! Behaviour of the level lifecycle controller: goal transitions, timers,
//! save requests and the end of the session.

use minigolf_core::lifecycle::{
    CollisionEvent, Effect, GameEvent, GameState, LevelLifecycle, SaveLevelEvent, DWELL_UNITS,
};
use minigolf_core::names::{goal_name_vec, level_content_registry, level_name_vec};
use minigolf_core::level::save_level;
use minigolf_core::payload::{Payload, PayloadKind};
use minigolf_core::registry::TypeRegistry;
use minigolf_core::store::{EntityId, EntityStore};

/// A store holding a goal entity and a plain (ball) entity.
fn goal_world() -> (EntityStore, EntityId, EntityId) {
    let mut store = EntityStore::new();
    let root = store.spawn();
    store.insert_component(root, level_name_vec(), Payload::Marker);
    let ball = store.spawn_child(root);
    let goal = store.spawn_child(root);
    store.insert_component(goal, goal_name_vec(), Payload::Marker);
    (store, ball, goal)
}

fn start_in_progress(store: &EntityStore) -> LevelLifecycle {
    let mut ctrl = LevelLifecycle::new(2);
    let effects = ctrl.step(store, GameEvent::Start);
    assert_eq!(ctrl.state(), GameState::InProgress);
    assert_eq!(effects.len(), 1);
    assert!(matches!(effects[0], Effect::Load(e) if e.level == 1));
    ctrl
}

#[test]
fn goal_collision_completes_level_and_emits_once() {
    let (store, ball, goal) = goal_world();
    let mut ctrl = start_in_progress(&store);

    let hit = GameEvent::Collision(CollisionEvent::Started(ball, goal));
    let effects = ctrl.step(&store, hit.clone());
    assert_eq!(ctrl.state(), GameState::Complete);
    assert_eq!(effects.len(), 1);
    assert!(matches!(effects[0], Effect::LevelComplete(_)));

    // A second identical event while already Complete: no transition, no
    // further notification.
    let effects = ctrl.step(&store, hit);
    assert_eq!(ctrl.state(), GameState::Complete);
    assert!(effects.is_empty());
}

#[test]
fn ended_contacts_and_plain_collisions_are_ignored() {
    let (store, ball, goal) = goal_world();
    let mut ctrl = start_in_progress(&store);

    let effects = ctrl.step(&store, GameEvent::Collision(CollisionEvent::Stopped(ball, goal)));
    assert_eq!(ctrl.state(), GameState::InProgress);
    assert!(effects.is_empty());

    let effects = ctrl.step(&store, GameEvent::Collision(CollisionEvent::Started(ball, ball)));
    assert_eq!(ctrl.state(), GameState::InProgress);
    assert!(effects.is_empty());
}

#[test]
fn complete_dwell_then_standby_then_next_level() {
    let (store, ball, goal) = goal_world();
    let mut ctrl = start_in_progress(&store);
    ctrl.step(&store, GameEvent::Collision(CollisionEvent::Started(ball, goal)));

    // One unit is not enough to leave Complete.
    let effects = ctrl.step(&store, GameEvent::Tick { units: 1 });
    assert_eq!(ctrl.state(), GameState::Complete);
    assert!(effects.is_empty());

    // The dwell ends: teardown and back to Standby for level 2.
    let effects = ctrl.step(&store, GameEvent::Tick { units: 1 });
    assert_eq!(ctrl.state(), GameState::Standby);
    assert_eq!(effects.len(), 1);
    assert!(matches!(effects[0], Effect::TeardownLevel));

    // Standby dwell, then the next level loads.
    let effects = ctrl.step(&store, GameEvent::Tick { units: DWELL_UNITS });
    assert_eq!(ctrl.state(), GameState::InProgress);
    assert_eq!(effects.len(), 1);
    assert!(matches!(effects[0], Effect::Load(e) if e.level == 2));
}

#[test]
fn last_level_ends_the_session_once() {
    let (store, ball, goal) = goal_world();
    let mut ctrl = start_in_progress(&store);

    // Finish level 1, dwell, load level 2, finish it too.
    ctrl.step(&store, GameEvent::Collision(CollisionEvent::Started(ball, goal)));
    ctrl.step(&store, GameEvent::Tick { units: DWELL_UNITS });
    ctrl.step(&store, GameEvent::Tick { units: DWELL_UNITS });
    assert_eq!(ctrl.state(), GameState::InProgress);
    ctrl.step(&store, GameEvent::Collision(CollisionEvent::Started(goal, ball)));
    assert_eq!(ctrl.state(), GameState::Complete);

    let effects = ctrl.step(&store, GameEvent::Tick { units: DWELL_UNITS });
    assert_eq!(effects.len(), 1);
    assert!(matches!(effects[0], Effect::GameComplete(_)));
    assert_eq!(ctrl.state(), GameState::Complete);

    // The session rests: further time changes nothing.
    let effects = ctrl.step(&store, GameEvent::Tick { units: 10 });
    assert!(effects.is_empty());
    assert_eq!(ctrl.state(), GameState::Complete);
}

#[test]
fn save_request_never_changes_state() {
    let (store, ball, goal) = goal_world();
    let mut ctrl = start_in_progress(&store);
    ctrl.step(&store, GameEvent::Collision(CollisionEvent::Started(ball, goal)));
    assert_eq!(ctrl.state(), GameState::Complete);

    let save = GameEvent::Save(SaveLevelEvent { name: String::from("slot_one") });
    let effects = ctrl.step(&store, save);
    assert_eq!(ctrl.state(), GameState::Complete);
    assert_eq!(effects.len(), 1);
    assert!(matches!(&effects[0], Effect::SaveLevel(e) if e.name == "slot_one"));
}

#[test]
fn failed_save_does_not_block_the_next_transition() {
    let (store, ball, goal) = goal_world();
    let mut ctrl = start_in_progress(&store);
    ctrl.step(&store, GameEvent::Collision(CollisionEvent::Started(ball, goal)));
    assert_eq!(ctrl.state(), GameState::Complete);

    // The save is requested while Complete...
    let effects = ctrl.step(
        &store,
        GameEvent::Save(SaveLevelEvent { name: String::from("slot_two") }),
    );
    assert!(matches!(effects[0], Effect::SaveLevel(_)));

    // ...and performing it fails with a serialization error, because this
    // registry promises the goal marker is a box record.
    let mut bad_registry = TypeRegistry::new();
    bad_registry.register(goal_name_vec(), PayloadKind::BoxDims);
    let save_result = save_level(&store, &bad_registry).expect("a level root exists");
    assert!(save_result.is_err());

    // The controller is unaffected: the next scheduled transition fires as
    // if the save had never been requested.
    assert_eq!(ctrl.state(), GameState::Complete);
    let effects = ctrl.step(&store, GameEvent::Tick { units: DWELL_UNITS });
    assert_eq!(ctrl.state(), GameState::Standby);
    assert!(matches!(effects[0], Effect::TeardownLevel));
}

#[test]
fn successful_save_renders_the_level_content() {
    let (store, _, _) = goal_world();
    let registry = level_content_registry();
    let bytes = save_level(&store, &registry).expect("a level root exists").expect("save");
    // Two records: the ball placeholder and the goal.
    let text = String::from_utf8(bytes).expect("scene text is ASCII");
    assert!(text.starts_with("scene\n"));
    assert_eq!(text.lines().filter(|line| *line == "e r").count(), 2);
    assert!(text.contains("Goal"));
}

#[test]
fn start_is_ignored_outside_standby() {
    let (store, _, _) = goal_world();
    let mut ctrl = start_in_progress(&store);
    let effects = ctrl.step(&store, GameEvent::Start);
    assert_eq!(ctrl.state(), GameState::InProgress);
    assert!(effects.is_empty());
}
