use rinecs::bitmask::{Bitmask, NextMask};
use rinecs::dense_vec::DenseVec;
use rinecs::entity::{Entities, EntitiesCreation, EntitiesThreadLocal, EntityRegistry};
use rinecs::forest::Forest;
use rinecs::oneton_densevec::DenseOneToNVec;

#[test]
fn registry_hands_out_single_bits() {
    let mut world = EntityRegistry::new();
    assert_eq!(world.next_component_mask(), 1);
    let a = world.register();
    let b = world.register();
    let c = world.register();
    assert_eq!((a, b, c), (1, 2, 4));
    assert_eq!(a & b, 0);
    assert_eq!(world.next_component_mask(), 8);
}

#[test]
fn next_mask_doubles() {
    let mut m = NextMask::new();
    assert_eq!(m.get(), 1);
    assert_eq!(m.next(), 1);
    assert_eq!(m.next(), 2);
    assert_eq!(m.get(), 4);
}

#[test]
fn entities_get_consecutive_guids() {
    let mut world = EntityRegistry::new();
    assert_eq!(world.next_guid(), 0);
    let e0 = world.create_entity(0);
    let e1 = world.create_entity(3);
    assert_eq!((e0.guid(), e1.guid()), (0, 1));
    assert_eq!(world.mask_of(&e1), 3);
    assert_eq!(world.entities_ref().len(), 2);
    assert_eq!(world.entities_ref()[1].0, e1);
}

#[test]
fn add_and_remove_component_update_mask() {
    let mut world = EntityRegistry::new();
    let pos = world.register();
    let vel = world.register();
    let e = world.create_entity(0);
    let mut positions: DenseVec<i32> = DenseVec::new();
    let mut velocities: DenseVec<i32> = DenseVec::new();
    world.add_component_to(&mut positions, pos, &e, 5);
    world.add_component_to(&mut velocities, vel, &e, 6);
    assert_eq!(world.mask_of(&e), pos | vel);
    assert_eq!(world.entities_for_mask(Bitmask::has(vel)), vec![0]);
    world.remove_component_from(&mut velocities, vel, &e);
    assert_eq!(world.mask_of(&e), pos);
    assert_eq!(world.entities_for_mask(Bitmask::has(vel)), Vec::<usize>::new());
    assert!(!velocities.contains_key(0));
}

#[test]
fn remove_entity_reports_registered_bits() {
    let mut world = EntityRegistry::new();
    let a = world.register();
    let _b = world.register();
    let c = world.register();
    let e = world.create_entity(a | c | 64);
    let bits = world.remove_entity(&e);
    assert_eq!(bits, vec![a, c]);
    // a bit that no registered component owns is left alone
    assert_eq!(world.mask_of(&e), 64);
    assert_eq!(world.entities_for_mask(Bitmask::has(a)), Vec::<usize>::new());
}

#[test]
fn ordered_entities_follow_hierarchy_and_filter() {
    let mut world = EntityRegistry::new();
    let pos = world.register();
    let tag = world.register();
    let mut forest: Forest<i32> = Forest::new();
    let e0 = world.create_entity(pos);
    forest.insert(e0.guid(), 0);
    let e1 = world.create_entity(pos | tag);
    forest.insert(e1.guid(), 1);
    let e2 = world.create_entity(pos | tag);
    forest.insert_child(e0.guid(), e2.guid(), 2);
    assert_eq!(world.ordered_entities_for(&mut forest, Bitmask::has(pos)), vec![0, 2, 1]);
    assert_eq!(world.ordered_entities_for(&mut forest, Bitmask::has(tag)), vec![2, 1]);
}

#[test]
fn entities_component_for_some_and_none() {
    let mut world = EntityRegistry::new();
    let pos = world.register();
    let e0 = world.create_entity(0);
    let e1 = world.create_entity(0);
    let mut positions: DenseVec<i32> = DenseVec::new();
    world.add_component_to(&mut positions, pos, &e1, 7);
    let entities = Entities::new(&world);
    assert_eq!(entities.component_for(&positions, &e0), None);
    assert_eq!(entities.component_for(&positions, &e1), Some(&7));
    if let Some(c) = entities.component_for_mut(&mut positions, &e1) {
        *c = 8;
    }
    assert!(entities.component_for_mut(&mut positions, &e0).is_none());
    assert_eq!(positions.get(1), Some(&8));
    assert_eq!(entities.entities_for_mask(Bitmask::has(pos)), vec![1]);
}

#[test]
fn thread_local_entities_tree_nodes() {
    let mut world = EntityRegistry::new();
    let bone = world.register();
    let root = world.create_entity(bone);
    let child = world.create_entity(bone);
    let stray = world.create_entity(0);
    let mut bones: Forest<&str> = Forest::new();
    bones.insert(root.guid(), "root");
    bones.insert_child(root.guid(), child.guid(), "child");
    let entities = EntitiesThreadLocal::new(&world);
    let node = entities.tree_node_for(&bones, &child).unwrap();
    assert_eq!(node.parent(), Some(entities.tree_node_for(&bones, &root).unwrap().id()));
    assert!(entities.tree_node_for(&bones, &stray).is_none());
    *entities.tree_node_for_mut(&mut bones, &child).unwrap() = "CHILD";
    assert_eq!(*bones.get(child.guid()), "CHILD");
    assert_eq!(entities.component_for(&bones, &root), Some(&"root"));
}

#[test]
fn creation_handle_changes_world() {
    let mut world = EntityRegistry::new();
    let pos = world.register();
    let many = world.register();
    let mut positions: DenseVec<i32> = DenseVec::new();
    let mut runs: DenseOneToNVec<i32> = DenseOneToNVec::new();
    {
        let mut creation = EntitiesCreation::new(&mut world);
        let e = creation.create_entity(0);
        creation.add_component_to(&mut positions, pos, &e, 1);
        let e1 = creation.create_entity(0);
        creation.add_component_to_thread_local(&mut positions, pos, &e1, 2);
        creation.add_slice_component_to(&mut runs, many, &e, &[1, 2, 3]);
        creation.add_slice_component_to_thread_local(&mut runs, many, &e, &[4]);
        assert_eq!(creation.component_for(&positions, &e), Some(&1));
        *creation.component_for_mut(&mut positions, &e).unwrap() += 10;
        let bits = creation.remove_entity(&e);
        assert_eq!(bits, vec![pos, many]);
    }
    assert_eq!(positions.get(0), Some(&11));
    assert_eq!(runs.get(0), &[1, 2, 3, 4]);
    assert_eq!(world.mask_of(&world.entities_ref()[0].0), 0);
    assert_eq!(world.mask_of(&world.entities_ref()[1].0), pos);
    let mut creation = EntitiesCreation::new(&mut world);
    let e1 = creation.world.entities_ref()[1].0;
    creation.remove_component_from(&mut positions, pos, &e1);
    assert!(!positions.contains_key(1));
}

#[test]
fn add_component_replaces_and_remove_takes_out() {
    let mut world = EntityRegistry::new();
    let pos = world.register();
    let mut positions: DenseVec<i32> = DenseVec::new();
    let e0 = world.create_entity(0);
    let e1 = world.create_entity(0);
    world.add_component_to(&mut positions, pos, &e0, 1);
    world.add_component_to(&mut positions, pos, &e1, 2);
    world.add_component_to(&mut positions, pos, &e0, 3);
    assert_eq!(positions.get(0), Some(&3));
    assert_eq!(positions.get(1), Some(&2));
    world.remove_component_from(&mut positions, pos, &e0);
    assert_eq!(positions.get(0), None);
    assert_eq!(positions.get(1), Some(&2));
    let entities = Entities::new(&world);
    assert_eq!(entities.component_for(&positions, &e0), None);
    assert_eq!(entities.component_for(&positions, &e1), Some(&2));
}

#[test]
fn one_to_n_growing_an_earlier_run_shifts_the_later_one() {
    let mut world = EntityRegistry::new();
    let many = world.register();
    let mut runs: DenseOneToNVec<i32> = DenseOneToNVec::new();
    let e0 = world.create_entity(0);
    let e1 = world.create_entity(0);
    world.add_slice_component_to(&mut runs, many, &e0, &[1, 2]);
    world.add_slice_component_to(&mut runs, many, &e1, &[7]);
    world.add_slice_component_to(&mut runs, many, &e0, &[3]);
    assert_eq!(runs.get(0), &[1, 2, 3]);
    assert_eq!(runs.get(1), &[3]);
}

#[test]
fn drop_component_takes_out_only_that_entity() {
    let mut positions: DenseVec<i32> = DenseVec::new();
    positions.insert(0, 1);
    positions.insert(1, 2);
    rinecs::entity::drop_component(&mut positions, 0);
    rinecs::entity::drop_component(&mut positions, 5);
    assert_eq!(positions.get(0), None);
    assert_eq!(positions.get(1), Some(&2));
}
