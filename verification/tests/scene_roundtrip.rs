//! Round-trip and filtering behaviour of the snapshot engine on a concrete
//! level: a ball, a goal and a wall under a level root.

use minigolf_core::errors::SceneError;
use minigolf_core::format::{parse, render};
use minigolf_core::instantiate::instantiate;
use minigolf_core::level::{clean_up_level, find_level_root, load_level, save_level};
use minigolf_core::names::{
    box_dims_name_vec, goal_name_vec, golf_ball_name_vec, level_content_registry, level_name_vec,
    transform_name_vec,
};
use minigolf_core::payload::{Payload, PayloadKind};
use minigolf_core::registry::TypeRegistry;
use minigolf_core::snapshot::{extract, resolve_types, ComponentData, Snapshot, SnapshotEntry};
use minigolf_core::store::{EntityId, EntityStore};

/// One world unit, in the fixed-point scale the payloads use.
const UNIT: i64 = 1_000_000;

fn transform_at(tx: i64, ty: i64, tz: i64) -> Payload {
    Payload::Transform { tx, ty, tz, rx: 0, ry: 0, rz: 0, rw: UNIT }
}

/// Builds the concrete level: Ball(pos 0,10,0), Goal(pos 0,0,-40),
/// Wall(dims 100,1,100).
fn build_level(store: &mut EntityStore) -> (EntityId, EntityId, EntityId, EntityId) {
    let root = store.spawn();
    store.insert_component(root, level_name_vec(), Payload::Marker);

    let ball = store.spawn_child(root);
    store.insert_component(ball, golf_ball_name_vec(), Payload::Marker);
    store.insert_component(ball, transform_name_vec(), transform_at(0, 10 * UNIT, 0));

    let goal = store.spawn_child(root);
    store.insert_component(goal, goal_name_vec(), Payload::Marker);
    store.insert_component(goal, transform_name_vec(), transform_at(0, 0, -40 * UNIT));

    let wall = store.spawn_child(root);
    store.insert_component(
        wall,
        box_dims_name_vec(),
        Payload::BoxDims { x: 100 * UNIT, y: UNIT, z: 100 * UNIT },
    );

    (root, ball, goal, wall)
}

fn entries_equal(a: &SnapshotEntry, b: &SnapshotEntry) -> bool {
    if a.parent != b.parent || a.components.len() != b.components.len() {
        return false;
    }
    for (ca, cb) in a.components.iter().zip(b.components.iter()) {
        if ca.name != cb.name || ca.data != cb.data {
            return false;
        }
    }
    true
}

fn snapshots_equal(a: &Snapshot, b: &Snapshot) -> bool {
    a.entries.len() == b.entries.len()
        && a.entries.iter().zip(b.entries.iter()).all(|(x, y)| entries_equal(x, y))
}

#[test]
fn extract_yields_three_entries_in_order() {
    let mut store = EntityStore::new();
    let (root, _, _, _) = build_level(&mut store);
    let registry = level_content_registry();
    let snap = extract(&store, root, &registry).expect("extract");
    assert_eq!(snap.entries.len(), 3);
    // All three are direct children of the root, in insertion order.
    for entry in &snap.entries {
        assert_eq!(entry.parent, None);
    }
    assert_eq!(snap.entries[0].components[0].name, golf_ball_name_vec());
    assert_eq!(snap.entries[0].components[1].name, transform_name_vec());
    assert_eq!(snap.entries[1].components[0].name, goal_name_vec());
    assert_eq!(snap.entries[1].components[1].name, transform_name_vec());
    assert_eq!(snap.entries[2].components[0].name, box_dims_name_vec());
    assert_eq!(snap.entries[2].components.len(), 1);
}

#[test]
fn render_then_parse_gives_the_same_snapshot() {
    let mut store = EntityStore::new();
    let (root, _, _, _) = build_level(&mut store);
    let registry = level_content_registry();
    let snap = extract(&store, root, &registry).expect("extract");
    let bytes = render(&snap);
    let reparsed = parse(bytes.as_slice()).expect("parse");
    assert!(snapshots_equal(&snap, &reparsed));
}

#[test]
fn instantiate_rebuilds_equal_subtree() {
    let mut store = EntityStore::new();
    let (root, _, _, _) = build_level(&mut store);
    let registry = level_content_registry();
    let snap = extract(&store, root, &registry).expect("extract");
    let bytes = render(&snap);
    let reparsed = parse(bytes.as_slice()).expect("parse");

    let mut fresh = EntityStore::new();
    let parent = fresh.spawn();
    let ids = instantiate(&mut fresh, &reparsed, parent, &registry).expect("instantiate");
    assert_eq!(ids.len(), 3);

    // The rebuilt entities carry the original markers and transforms.
    assert_eq!(
        fresh.get_component(ids[0], golf_ball_name_vec().as_slice()),
        Some(Payload::Marker)
    );
    assert_eq!(
        fresh.get_component(ids[0], transform_name_vec().as_slice()),
        Some(transform_at(0, 10 * UNIT, 0))
    );
    assert_eq!(
        fresh.get_component(ids[1], goal_name_vec().as_slice()),
        Some(Payload::Marker)
    );
    assert_eq!(
        fresh.get_component(ids[1], transform_name_vec().as_slice()),
        Some(transform_at(0, 0, -40 * UNIT))
    );
    assert_eq!(
        fresh.get_component(ids[2], box_dims_name_vec().as_slice()),
        Some(Payload::BoxDims { x: 100 * UNIT, y: UNIT, z: 100 * UNIT })
    );

    // The rebuilt subtree hangs under the chosen parent, in order.
    let children = fresh.child_ids(parent);
    assert_eq!(children.len(), 3);
    for (c, id) in children.iter().zip(ids.iter()) {
        assert_eq!(c.index, id.index);
    }

    // Re-extracting the rebuilt subtree yields the very same snapshot.
    let again = extract(&fresh, parent, &registry).expect("re-extract");
    assert!(snapshots_equal(&snap, &again));
}

#[test]
fn nested_children_survive_the_round_trip() {
    let mut store = EntityStore::new();
    let root = store.spawn();
    store.insert_component(root, level_name_vec(), Payload::Marker);
    let a = store.spawn_child(root);
    store.insert_component(a, golf_ball_name_vec(), Payload::Marker);
    let b = store.spawn_child(a);
    store.insert_component(b, goal_name_vec(), Payload::Marker);
    let _c = store.spawn_child(root);

    let registry = level_content_registry();
    let snap = extract(&store, root, &registry).expect("extract");
    assert_eq!(snap.entries.len(), 3);
    assert_eq!(snap.entries[0].parent, None);
    assert_eq!(snap.entries[1].parent, Some(0));
    assert_eq!(snap.entries[2].parent, None);

    let bytes = render(&snap);
    let reparsed = parse(bytes.as_slice()).expect("parse");
    let mut fresh = EntityStore::new();
    let parent = fresh.spawn();
    let ids = instantiate(&mut fresh, &reparsed, parent, &registry).expect("instantiate");
    assert_eq!(fresh.parent_of(ids[1]).unwrap().index, ids[0].index);
    let again = extract(&fresh, parent, &registry).expect("re-extract");
    assert!(snapshots_equal(&snap, &again));
}

#[test]
fn unregistered_component_is_omitted_but_entity_kept() {
    let mut store = EntityStore::new();
    let root = store.spawn();
    store.insert_component(root, level_name_vec(), Payload::Marker);
    let decor = store.spawn_child(root);
    // A component type no registry entry exists for.
    store.insert_component(decor, b"Sparkle".to_vec(), Payload::Marker);
    store.insert_component(decor, transform_name_vec(), transform_at(UNIT, 0, 0));

    let registry = level_content_registry();
    let snap = extract(&store, root, &registry).expect("extract");
    assert_eq!(snap.entries.len(), 1);
    // The placeholder survives; the unregistered component does not.
    assert_eq!(snap.entries[0].components.len(), 1);
    assert_eq!(snap.entries[0].components[0].name, transform_name_vec());
}

#[test]
fn entity_with_no_includable_component_still_appears() {
    let mut store = EntityStore::new();
    let root = store.spawn();
    store.insert_component(root, level_name_vec(), Payload::Marker);
    let marker_only = store.spawn_child(root);
    store.insert_component(marker_only, b"Sparkle".to_vec(), Payload::Marker);

    let registry = level_content_registry();
    let snap = extract(&store, root, &registry).expect("extract");
    assert_eq!(snap.entries.len(), 1);
    assert!(snap.entries[0].components.is_empty());
}

#[test]
fn save_and_load_reproduce_the_level() {
    let mut store = EntityStore::new();
    let (_root, _, _, _) = build_level(&mut store);
    let registry = level_content_registry();
    let bytes = save_level(&store, &registry).expect("a level root exists").expect("save");

    let mut fresh = EntityStore::new();
    let (root2, ids, skipped) = load_level(&mut fresh, bytes.as_slice(), &registry, false)
        .expect("load");
    assert!(skipped.is_empty());
    assert_eq!(ids.len(), 3);
    assert!(fresh.is_valid(root2));
    assert_eq!(find_level_root(&fresh).unwrap().index, root2.index);
    assert_eq!(fresh.child_ids(root2).len(), 3);
    assert_eq!(
        fresh.get_component(ids[0], transform_name_vec().as_slice()),
        Some(transform_at(0, 10 * UNIT, 0))
    );
}

#[test]
fn clean_up_level_destroys_only_the_subtree() {
    let mut store = EntityStore::new();
    let (root, ball, goal, wall) = build_level(&mut store);
    // An entity outside the level subtree, like a light, is untouched.
    let light = store.spawn();
    clean_up_level(&mut store);
    assert!(!store.is_valid(root));
    assert!(!store.is_valid(ball));
    assert!(!store.is_valid(goal));
    assert!(!store.is_valid(wall));
    assert!(store.is_valid(light));
    assert!(find_level_root(&store).is_none());
}

#[test]
fn several_level_roots_refuse_to_save_and_all_get_torn_down() {
    let registry = level_content_registry();
    let mut store = EntityStore::new();
    let first = store.spawn();
    store.insert_component(first, level_name_vec(), Payload::Marker);
    let child = store.spawn_child(first);
    store.insert_component(child, goal_name_vec(), Payload::Marker);
    let second = store.spawn();
    store.insert_component(second, level_name_vec(), Payload::Marker);
    let bystander = store.spawn();

    // An ambiguous save is refused outright; nothing is persisted.
    assert!(save_level(&store, &registry).is_none());

    // Teardown destroys every level root's subtree, and nothing else.
    clean_up_level(&mut store);
    assert!(!store.is_valid(first));
    assert!(!store.is_valid(child));
    assert!(!store.is_valid(second));
    assert!(store.is_valid(bystander));
    assert!(find_level_root(&store).is_none());

    // With the ambiguity gone, a fresh level saves again.
    let third = store.spawn();
    store.insert_component(third, level_name_vec(), Payload::Marker);
    assert!(save_level(&store, &registry).expect("one level root").is_ok());
}

#[test]
fn parse_rejects_corrupt_input() {
    assert_eq!(parse(b"not a scene").err(), Some(SceneError::CorruptFormat));
    assert_eq!(parse(b"").err(), Some(SceneError::CorruptFormat));
    // A truncated scene: the header alone is fine, a dangling record is not.
    let mut store = EntityStore::new();
    let (root, _, _, _) = build_level(&mut store);
    let registry = level_content_registry();
    let snap = extract(&store, root, &registry).expect("extract");
    let bytes = render(&snap);
    let truncated = &bytes[..bytes.len() - 1];
    assert_eq!(parse(truncated).err(), Some(SceneError::CorruptFormat));
}

#[test]
fn parse_is_strict_about_structure() {
    // A record cannot name itself or a later record as its parent: the
    // first record has no earlier record to refer to.
    let forward_ref = b"scene\ne 00000000000000000000\n";
    assert_eq!(parse(forward_ref).err(), Some(SceneError::CorruptFormat));

    // A component length field must be all digits.
    let bad_length = b"scene\ne r\nc Goal 0000000000000000000x \n";
    assert_eq!(parse(bad_length).err(), Some(SceneError::CorruptFormat));

    // The payload must be followed by its newline.
    let missing_newline = b"scene\ne r\nc Goal 00000000000000000002 ab";
    assert_eq!(parse(missing_newline).err(), Some(SceneError::CorruptFormat));

    // A well-formed record with a second-record parent reference parses.
    let nested = b"scene\ne r\ne 00000000000000000000\n";
    let snap = parse(nested).expect("parse");
    assert_eq!(snap.entries.len(), 2);
    assert_eq!(snap.entries[0].parent, None);
    assert_eq!(snap.entries[1].parent, Some(0));
}

#[test]
fn empty_scene_round_trips() {
    let snap = Snapshot { entries: Vec::new() };
    let bytes = render(&snap);
    let reparsed = parse(bytes.as_slice()).expect("parse");
    assert!(reparsed.entries.is_empty());
}

#[test]
fn unknown_type_reference_policy_is_the_callers() {
    let registry = level_content_registry();
    let entry = SnapshotEntry {
        parent: None,
        components: vec![ComponentData { name: b"Mystery".to_vec(), data: Vec::new() }],
    };
    let snap = Snapshot { entries: vec![entry] };
    let bytes = render(&snap);

    // Abort policy: the load surfaces the unknown reference as an error.
    let reparsed = parse(bytes.as_slice()).expect("parse");
    assert_eq!(
        resolve_types(reparsed, &registry, false).err(),
        Some(SceneError::UnknownTypeReference)
    );

    // Skip policy: the component is dropped and reported.
    let reparsed = parse(bytes.as_slice()).expect("parse");
    let (resolved, skipped) = resolve_types(reparsed, &registry, true).expect("resolve");
    assert_eq!(resolved.entries.len(), 1);
    assert!(resolved.entries[0].components.is_empty());
    assert_eq!(skipped.len(), 1);
    assert_eq!(skipped[0].entry, 0);
    assert_eq!(skipped[0].name, b"Mystery".to_vec());
}

#[test]
fn load_policy_decides_unknown_references() {
    let registry = level_content_registry();
    let entry = SnapshotEntry {
        parent: None,
        components: vec![
            ComponentData { name: golf_ball_name_vec(), data: Vec::new() },
            ComponentData { name: b"Mystery".to_vec(), data: b"??".to_vec() },
        ],
    };
    let snap = Snapshot { entries: vec![entry] };
    let bytes = render(&snap);

    // Abort policy.
    let mut store = EntityStore::new();
    assert_eq!(
        load_level(&mut store, bytes.as_slice(), &registry, false).err(),
        Some(SceneError::UnknownTypeReference)
    );

    // Skip policy: the level loads without the unknown component, which is
    // surfaced to the caller.
    let mut store = EntityStore::new();
    let (_root, ids, skipped) =
        load_level(&mut store, bytes.as_slice(), &registry, true).expect("load");
    assert_eq!(ids.len(), 1);
    assert_eq!(skipped.len(), 1);
    assert_eq!(skipped[0].name, b"Mystery".to_vec());
    assert_eq!(
        store.get_component(ids[0], golf_ball_name_vec().as_slice()),
        Some(Payload::Marker)
    );
    assert_eq!(store.get_component(ids[0], b"Mystery"), None);
}

#[test]
fn instantiation_error_on_undecodable_payload() {
    let registry = level_content_registry();
    // A Transform component whose payload bytes are not a transform.
    let entry = SnapshotEntry {
        parent: None,
        components: vec![ComponentData { name: transform_name_vec(), data: b"junk".to_vec() }],
    };
    let snap = Snapshot { entries: vec![entry] };
    let mut store = EntityStore::new();
    let parent = store.spawn();
    assert_eq!(
        instantiate(&mut store, &snap, parent, &registry).err(),
        Some(SceneError::InstantiationError)
    );
}

#[test]
fn serialization_error_when_registered_shape_mismatches() {
    // A registry that promises the goal marker is a box record.
    let mut registry = TypeRegistry::new();
    registry.register(goal_name_vec(), PayloadKind::BoxDims);
    let mut store = EntityStore::new();
    let root = store.spawn();
    let goal = store.spawn_child(root);
    store.insert_component(goal, goal_name_vec(), Payload::Marker);
    assert_eq!(
        extract(&store, root, &registry).err(),
        Some(SceneError::SerializationError)
    );
}

#[test]
fn registry_read_write_errors() {
    let registry = level_content_registry();
    assert_eq!(
        registry.write(b"Mystery", &Payload::Marker).err(),
        Some(SceneError::UnregisteredType)
    );
    assert_eq!(
        registry.read(b"Mystery", b"").err(),
        Some(SceneError::UnregisteredType)
    );
    assert_eq!(
        registry.read(transform_name_vec().as_slice(), b"junk").err(),
        Some(SceneError::MalformedPayload)
    );
    assert_eq!(
        registry.write(transform_name_vec().as_slice(), &Payload::Marker).err(),
        Some(SceneError::SerializationError)
    );
}

#[test]
fn payload_write_read_round_trip_is_exact() {
    let registry = level_content_registry();
    let cases = [
        Payload::BoxDims { x: i64::MAX, y: i64::MIN, z: 0 },
        Payload::BoxDims { x: -1, y: 1, z: 1_234_567 },
        Payload::Transform {
            tx: 7,
            ty: -7,
            tz: i64::MAX,
            rx: i64::MIN,
            ry: 0,
            rz: -42,
            rw: UNIT,
        },
    ];
    for p in cases {
        let name = match p {
            Payload::BoxDims { .. } => box_dims_name_vec(),
            _ => transform_name_vec(),
        };
        let bytes = registry.write(name.as_slice(), &p).expect("write");
        let back = registry.read(name.as_slice(), bytes.as_slice()).expect("read");
        assert_eq!(back, p);
    }
}

#[test]
fn registering_twice_changes_nothing() {
    let mut registry = TypeRegistry::new();
    registry.register(goal_name_vec(), PayloadKind::Marker);
    registry.register(goal_name_vec(), PayloadKind::Marker);
    // Even a conflicting late registration is a no-op, not an error.
    registry.register(goal_name_vec(), PayloadKind::BoxDims);
    assert!(registry.has(goal_name_vec().as_slice()));
    let bytes = registry.write(goal_name_vec().as_slice(), &Payload::Marker).expect("write");
    assert_eq!(
        registry.read(goal_name_vec().as_slice(), bytes.as_slice()),
        Ok(Payload::Marker)
    );
}
