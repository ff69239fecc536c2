use physics_sync::store::{EntityStore, LocalPos};
use physics_sync::tracker::ModificationTracker;
use physics_sync::systems::{
    attach_bodies_and_colliders, collect_removals, finalize_collider_attach_to_bodies,
    prepare_step, step_world,
};
use physics_sync::components::{JointBuilderComponent, JointHandleComponent};

fn pos(x: i64, y: i64) -> LocalPos {
    LocalPos { x, y, angle: 0 }
}

fn collider_of(store: &EntityStore, id: u64) -> &physics_sync::store::ColliderState {
    let rec = store.entities.iter().find(|r| r.id == id).unwrap();
    rec.collider.as_ref().unwrap()
}

fn body_of(store: &EntityStore, id: u64) -> &physics_sync::store::BodyState {
    let rec = store.entities.iter().find(|r| r.id == id).unwrap();
    rec.body.as_ref().unwrap()
}

#[test]
fn local_pos_origin_is_zero() {
    let p = LocalPos::origin();
    assert_eq!(p, LocalPos { x: 0, y: 0, angle: 0 });
}

#[test]
fn store_rejects_duplicates() {
    let mut store = EntityStore::new();
    assert!(store.spawn(1, None));
    assert!(!store.spawn(1, None));
    assert!(store.insert_body(1, 10, pos(0, 0)));
    assert!(!store.insert_body(1, 11, pos(0, 0)));
    assert!(store.spawn(2, None));
    assert!(!store.insert_body(2, 10, pos(0, 0)));
    assert!(store.insert_collider(2, 20, pos(0, 0)));
    assert!(!store.insert_collider(2, 20, pos(0, 0)));
}

// Scenario: entity A has a body and no parent; entity B has a collider and a
// parent pointing at A. After attach + finalize, B carries a relation with
// A's handle, and the engine-side body for A lists B's collider handle.
#[test]
fn attach_and_finalize_direct_parent() {
    let mut store = EntityStore::new();
    let mut tracker = ModificationTracker::new();
    assert!(store.spawn(1, None));
    assert!(store.insert_body(1, 100, pos(0, 0)));
    assert!(store.spawn(2, Some(1)));
    assert!(store.insert_collider(2, 200, pos(3, 4)));

    attach_bodies_and_colliders(&mut store);
    let c = collider_of(&store, 2);
    let parent = c.parent.expect("collider should be attached");
    assert_eq!(parent.handle, 100);
    assert_eq!(parent.pos_wrt_parent, pos(3, 4));
    assert!(c.parent_added);

    finalize_collider_attach_to_bodies(&mut store, &mut tracker);
    let b = body_of(&store, 1);
    assert!(b.colliders.contains(&200));
    assert_eq!(tracker.body_colliders.get(&100).unwrap(), &vec![200]);
    assert_eq!(tracker.colliders_parent.get(&200), Some(&100));
    assert_eq!(tracker.modified_bodies, vec![100]);
    let c = collider_of(&store, 2);
    assert_eq!(c.changes, 0);
    assert_eq!(c.bf_data, 0);
    assert!(!c.parent_added);
    assert_eq!(c.parent.unwrap().handle, 100);
}

// Scenario: entity C has a collider and a parent pointing at a non-existent
// entity D; the chain is exhausted at D, so no relation is created and the
// entity stays eligible for the next pass.
#[test]
fn attach_skips_chain_without_body() {
    let mut store = EntityStore::new();
    assert!(store.spawn(3, Some(4)));
    assert!(store.insert_collider(3, 300, pos(1, 1)));
    attach_bodies_and_colliders(&mut store);
    assert!(collider_of(&store, 3).parent.is_none());
    assert!(!collider_of(&store, 3).parent_added);
}

#[test]
fn attach_walks_ancestor_chain() {
    let mut store = EntityStore::new();
    assert!(store.spawn(1, None));
    assert!(store.insert_body(1, 100, pos(0, 0)));
    assert!(store.spawn(2, Some(1)));
    assert!(store.spawn(3, Some(2)));
    assert!(store.insert_collider(3, 300, pos(7, 8)));
    attach_bodies_and_colliders(&mut store);
    let parent = collider_of(&store, 3).parent.expect("attached through chain");
    assert_eq!(parent.handle, 100);
    assert_eq!(parent.pos_wrt_parent, pos(7, 8));
}

#[test]
fn attach_prefers_own_body() {
    let mut store = EntityStore::new();
    assert!(store.spawn(1, None));
    assert!(store.insert_body(1, 100, pos(0, 0)));
    assert!(store.spawn(2, Some(1)));
    assert!(store.insert_body(2, 101, pos(0, 0)));
    assert!(store.insert_collider(2, 200, pos(0, 0)));
    attach_bodies_and_colliders(&mut store);
    assert_eq!(collider_of(&store, 2).parent.unwrap().handle, 101);
}

#[test]
fn attach_survives_parent_cycle() {
    let mut store = EntityStore::new();
    assert!(store.spawn(1, Some(2)));
    assert!(store.spawn(2, Some(1)));
    assert!(store.insert_collider(1, 200, pos(0, 0)));
    attach_bodies_and_colliders(&mut store);
    assert!(collider_of(&store, 1).parent.is_none());
}

// Idempotence: running the attachment pass twice with no intervening change
// produces no additional relation creation.
#[test]
fn attach_twice_changes_nothing() {
    let mut store = EntityStore::new();
    assert!(store.spawn(1, None));
    assert!(store.insert_body(1, 100, pos(0, 0)));
    assert!(store.spawn(2, Some(1)));
    assert!(store.insert_collider(2, 200, pos(3, 4)));
    assert!(store.spawn(3, Some(9)));
    assert!(store.insert_collider(3, 300, pos(1, 1)));

    attach_bodies_and_colliders(&mut store);
    let first: Vec<_> = store
        .entities
        .iter()
        .map(|r| (r.id, r.parent, r.collider.as_ref().map(|c| (c.handle, c.parent, c.parent_added))))
        .collect();
    attach_bodies_and_colliders(&mut store);
    let second: Vec<_> = store
        .entities
        .iter()
        .map(|r| (r.id, r.parent, r.collider.as_ref().map(|c| (c.handle, c.parent, c.parent_added))))
        .collect();
    assert_eq!(first, second);
}

#[test]
fn finalize_records_each_attachment_once() {
    let mut store = EntityStore::new();
    let mut tracker = ModificationTracker::new();
    assert!(store.spawn(1, None));
    assert!(store.insert_body(1, 100, pos(0, 0)));
    assert!(store.spawn(2, Some(1)));
    assert!(store.insert_collider(2, 200, pos(0, 0)));
    assert!(store.spawn(3, Some(1)));
    assert!(store.insert_collider(3, 201, pos(0, 0)));

    attach_bodies_and_colliders(&mut store);
    finalize_collider_attach_to_bodies(&mut store, &mut tracker);
    let entry = tracker.body_colliders.get(&100).unwrap();
    assert_eq!(entry.iter().filter(|&&c| c == 200).count(), 1);
    assert_eq!(entry.iter().filter(|&&c| c == 201).count(), 1);
    // the body is recorded as modified once, although two colliders attached
    assert_eq!(tracker.modified_bodies, vec![100]);

    // a second finalize pass finds no newly added relation and is a no-op
    finalize_collider_attach_to_bodies(&mut store, &mut tracker);
    assert_eq!(tracker.body_colliders.get(&100).unwrap(), &vec![200, 201]);
    assert_eq!(tracker.modified_bodies, vec![100]);
}

#[test]
fn detect_modifications_does_not_double_count() {
    let mut store = EntityStore::new();
    let mut tracker = ModificationTracker::new();
    assert!(store.spawn(1, None));
    assert!(store.insert_body(1, 100, pos(0, 0)));
    assert!(store.set_body_pos(1, pos(5, 5)));
    assert!(store.set_body_pos(1, pos(6, 6)));
    prepare_step(&mut store, &mut tracker);
    assert_eq!(tracker.modified_bodies, vec![100]);
    assert_eq!(body_of(&store, 1).pos, pos(6, 6));
}

// After a full step, the tracker's modified and removed collections are
// empty, whatever they held before.
#[test]
fn step_drains_all_tracked_deltas() {
    let mut store = EntityStore::new();
    let mut tracker = ModificationTracker::new();
    assert!(store.spawn(1, None));
    assert!(store.insert_body(1, 100, pos(0, 0)));
    assert!(store.spawn(2, None));
    assert!(store.insert_collider(2, 200, pos(0, 0)));
    assert!(store.set_body_pos(1, pos(1, 0)));
    assert!(store.set_collider_pos(2, pos(0, 1)));
    prepare_step(&mut store, &mut tracker);
    assert_eq!(tracker.modified_bodies, vec![100]);
    assert_eq!(tracker.modified_colliders, vec![200]);

    let outputs = step_world(&mut store, &mut tracker);
    assert!(tracker.modified_bodies.is_empty());
    assert!(tracker.modified_colliders.is_empty());
    assert!(tracker.removed_bodies.is_empty());
    assert!(tracker.removed_colliders.is_empty());
    assert_eq!(outputs.modified_bodies, vec![100]);
    assert_eq!(outputs.modified_colliders, vec![200]);
    // the flags were consumed together with the deltas
    assert_eq!(body_of(&store, 1).changes, 0);
    assert_eq!(collider_of(&store, 2).changes, 0);
}

// Scenario: a body entity is removed from the store; the next prepare + step
// reports it in the removed set and strips the collider components of the
// colliders that were attached to it.
#[test]
fn removed_body_strips_attached_colliders() {
    let mut store = EntityStore::new();
    let mut tracker = ModificationTracker::new();
    assert!(store.spawn(1, None));
    assert!(store.insert_body(1, 100, pos(0, 0)));
    assert!(store.spawn(2, Some(1)));
    assert!(store.insert_collider(2, 200, pos(0, 0)));
    attach_bodies_and_colliders(&mut store);
    finalize_collider_attach_to_bodies(&mut store, &mut tracker);
    let _ = step_world(&mut store, &mut tracker);

    assert!(store.remove_body(1));
    prepare_step(&mut store, &mut tracker);
    assert_eq!(tracker.removed_bodies, vec![100]);
    let outputs = step_world(&mut store, &mut tracker);
    assert_eq!(outputs.removed_bodies, vec![100]);
    assert!(outputs.removed_colliders.contains(&200));
    let rec = store.entities.iter().find(|r| r.id == 2).unwrap();
    assert!(rec.collider.is_none(), "collider components must be stripped");
    assert!(tracker.body_colliders.get(&100).is_none());
    assert!(tracker.colliders_parent.get(&200).is_none());
    assert!(tracker.removed_bodies.is_empty());
    assert!(tracker.removed_colliders.is_empty());
}

#[test]
fn collect_removals_records_late_removals() {
    let mut store = EntityStore::new();
    let mut tracker = ModificationTracker::new();
    assert!(store.spawn(2, None));
    assert!(store.insert_collider(2, 200, pos(0, 0)));
    assert!(store.remove_collider(2));
    collect_removals(&mut store, &mut tracker);
    assert_eq!(tracker.removed_colliders, vec![200]);
    // the signal was drained: a second look adds nothing
    collect_removals(&mut store, &mut tracker);
    assert_eq!(tracker.removed_colliders, vec![200]);
}

#[test]
fn joint_components_carry_entities_and_handles() {
    let mut world = hecs::World::new();
    let e1 = world.spawn(());
    let e2 = world.spawn(());
    let builder = JointBuilderComponent::new(
        rapier2d::prelude::RevoluteJointBuilder::new(),
        e1,
        e2,
    );
    assert_eq!(builder.entity1(), e1);
    assert_eq!(builder.entity2(), e2);
    let _params = builder.params();

    let handle = rapier2d::dynamics::ImpulseJointHandle::invalid();
    let joint = JointHandleComponent::new(handle, e1, e2);
    assert_eq!(joint.handle(), handle);
    assert_eq!(joint.entity1(), e1);
    assert_eq!(joint.entity2(), e2);
}
