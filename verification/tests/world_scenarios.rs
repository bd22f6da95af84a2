use rinecs::bitmask::{Bitmask, MaskType};
use rinecs::dense_vec::DenseVec;
use rinecs::entity::{Entity, EntityRegistry};
use rinecs::forest::Forest;
use rinecs::oneton_densevec::DenseOneToNVec;
use rinecs::vec::VecStorage;
use rinecs::storage::Storage;

#[derive(Debug, PartialEq, Copy, Clone)]
struct Pos {
    x: f32,
    y: f32,
}

#[derive(Debug, PartialEq, Copy, Clone)]
struct Vel {
    x: f32,
    y: f32,
}

#[derive(Debug, PartialEq, Copy, Clone)]
struct Other {
    x: f32,
    y: f32,
}

fn pos(v: f32) -> Pos {
    Pos { x: v, y: v }
}

fn vel(v: f32) -> Vel {
    Vel { x: v, y: v }
}

fn other(v: f32) -> Other {
    Other { x: v, y: v }
}

/// The components that a query over `filter` visits, in entity order.
fn read_all<T: Copy>(world: &EntityRegistry, storage: &DenseVec<T>, filter: Bitmask) -> Vec<T> {
    world.entities_for_mask(filter).iter().map(|g| *storage.get(*g).unwrap()).collect()
}

#[test]
fn insert_read() {
    let mut world = EntityRegistry::new();
    let pos_mask = world.register();
    let mut positions: DenseVec<Pos> = DenseVec::new();
    for v in [1., 2., 3.] {
        let g = world.next_guid();
        positions.insert(g, pos(v));
        world.create_entity(pos_mask);
    }
    let read = read_all(&world, &positions, Bitmask::has(pos_mask));
    assert_eq!(read.len(), 3);
    let mut iter = read.into_iter();
    assert_eq!(iter.next(), Some(pos(1.)));
    assert_eq!(iter.next(), Some(pos(2.)));
    assert_eq!(iter.next(), Some(pos(3.)));
    assert_eq!(iter.next(), None);
}

#[test]
fn insert_read_entities() {
    let mut world = EntityRegistry::new();
    let pos_mask = world.register();
    let mut positions: DenseVec<Pos> = DenseVec::new();
    for v in [1., 2., 3.] {
        let g = world.next_guid();
        positions.insert(g, pos(v));
        world.create_entity(pos_mask);
    }
    let guids = world.entities_for_mask(Bitmask::has(pos_mask));
    assert_eq!(guids.len(), 3);
    let entities = world.entities_ref();
    let mut iter = guids.iter().map(|g| (entities[*g].0, *positions.get(*g).unwrap()));
    let next = iter.next().unwrap();
    assert_eq!(next.0.guid(), 0);
    assert_eq!(next.1, pos(1.));
    let next = iter.next().unwrap();
    assert_eq!(next.0.guid(), 1);
    assert_eq!(next.1, pos(2.));
    let next = iter.next().unwrap();
    assert_eq!(next.0.guid(), 2);
    assert_eq!(next.1, pos(3.));
    assert!(iter.next().is_none());
}

#[test]
fn insert_read_write() {
    let mut world = EntityRegistry::new();
    let pos_mask = world.register();
    let vel_mask = world.register();
    let mut positions: DenseVec<Pos> = DenseVec::new();
    let mut velocities: DenseVec<Vel> = DenseVec::new();
    for v in [1., 2., 3.] {
        let g = world.next_guid();
        positions.insert(g, pos(v));
        velocities.insert(g, vel(1.));
        world.create_entity(pos_mask | vel_mask);
    }
    let filter = Bitmask::has(pos_mask).bitor(Bitmask::has(vel_mask));
    for g in world.entities_for_mask(filter) {
        let v = *velocities.get(g).unwrap();
        let p = positions.get_unchecked_mut(g);
        p.x += v.x;
        p.y += v.y;
    }
    let read = read_all(&world, &positions, Bitmask::has(pos_mask));
    assert_eq!(read.len(), 3);
    let mut iter = read.into_iter();
    assert_eq!(iter.next(), Some(pos(2.)));
    assert_eq!(iter.next(), Some(pos(3.)));
    assert_eq!(iter.next(), Some(pos(4.)));
    assert_eq!(iter.next(), None);
}

#[test]
fn insert_read_not() {
    let mut world = EntityRegistry::new();
    let pos_mask = world.register();
    let vel_mask = world.register();
    let mut positions: DenseVec<Pos> = DenseVec::new();
    let mut velocities: DenseVec<Vel> = DenseVec::new();
    for v in [1., 2.] {
        let g = world.next_guid();
        positions.insert(g, pos(v));
        world.create_entity(pos_mask);
    }
    let g = world.next_guid();
    positions.insert(g, pos(3.));
    velocities.insert(g, vel(3.));
    world.create_entity(pos_mask | vel_mask);

    let filter = Bitmask::has(pos_mask).bitor(Bitmask::not(vel_mask));
    let read = read_all(&world, &positions, filter);
    assert_eq!(read.len(), 2);
    let mut iter = read.into_iter();
    assert_eq!(iter.next(), Some(pos(1.)));
    assert_eq!(iter.next(), Some(pos(2.)));
    assert_eq!(iter.next(), None);
}

#[test]
fn insert_readnot() {
    let mut world = EntityRegistry::new();
    let pos_mask = world.register();
    let vel_mask = world.register();
    let other_mask = world.register();
    let mut positions: DenseVec<Pos> = DenseVec::new();
    let mut velocities: DenseVec<Vel> = DenseVec::new();
    let mut others: DenseVec<Other> = DenseVec::new();
    for v in [1., 2.] {
        let g = world.next_guid();
        positions.insert(g, pos(v));
        others.insert(g, other(v));
        world.create_entity(pos_mask | other_mask);
    }
    let g = world.next_guid();
    positions.insert(g, pos(3.));
    velocities.insert(g, vel(3.));
    world.create_entity(pos_mask | vel_mask);

    let filter = Bitmask::has(other_mask).bitor(Bitmask::has_not(pos_mask, vel_mask));
    let guids = world.entities_for_mask(filter);
    assert_eq!(guids.len(), 2);
    let mut iter = guids.iter().map(|g| (*others.get(*g).unwrap(), *positions.get(*g).unwrap()));
    assert_eq!(iter.next(), Some((other(1.), pos(1.))));
    assert_eq!(iter.next(), Some((other(2.), pos(2.))));
    assert_eq!(iter.next(), None);
}

#[test]
fn insert_reador() {
    let mut world = EntityRegistry::new();
    let pos_mask = world.register();
    let vel_mask = world.register();
    let other_mask = world.register();
    let mut positions: DenseVec<Pos> = DenseVec::new();
    let mut velocities: DenseVec<Vel> = DenseVec::new();
    let mut others: DenseVec<Other> = DenseVec::new();
    let g = world.next_guid();
    positions.insert(g, pos(1.));
    others.insert(g, other(1.));
    world.create_entity(pos_mask | other_mask);
    let g = world.next_guid();
    positions.insert(g, pos(2.));
    world.create_entity(pos_mask);
    let g = world.next_guid();
    positions.insert(g, pos(3.));
    velocities.insert(g, vel(3.));
    world.create_entity(pos_mask | vel_mask);

    let filter = Bitmask::has(pos_mask).bitor(Bitmask::or(vel_mask | other_mask));
    let guids = world.entities_for_mask(filter);
    assert_eq!(guids.len(), 2);
    let mut iter = guids.iter().map(|g| {
        (*positions.get(*g).unwrap(), (velocities.get(*g).copied(), others.get(*g).copied()))
    });
    assert_eq!(iter.next(), Some((pos(1.), (None, Some(other(1.))))));
    assert_eq!(iter.next(), Some((pos(3.), (Some(vel(3.)), None))));
    assert_eq!(iter.next(), None);
}

fn create_in_forest(world: &mut EntityRegistry, forest: &mut Forest<Pos>, mask: MaskType, parent: Option<&Entity>, p: Pos) -> Entity {
    let g = world.next_guid();
    match parent {
        Some(parent) => forest.insert_child(parent.guid(), g, p),
        None => forest.insert(g, p),
    }
    world.create_entity(mask)
}

#[test]
fn hierarchical_insert_read() {
    let mut world = EntityRegistry::new();
    let pos_mask = world.register();
    let mut positions: Forest<Pos> = Forest::new();
    let e1 = create_in_forest(&mut world, &mut positions, pos_mask, None, pos(1.));
    let e2 = create_in_forest(&mut world, &mut positions, pos_mask, None, pos(2.));
    let e3 = create_in_forest(&mut world, &mut positions, pos_mask, Some(&e1), pos(3.));
    let _e4 = create_in_forest(&mut world, &mut positions, pos_mask, Some(&e2), pos(4.));
    let _e5 = create_in_forest(&mut world, &mut positions, pos_mask, Some(&e3), pos(5.));

    let guids = world.entities_for_mask(Bitmask::has(pos_mask));
    assert_eq!(guids.len(), 5);
    let mut iter = guids.iter().map(|g| *positions.get(*g));
    assert_eq!(iter.next(), Some(pos(1.)));
    assert_eq!(iter.next(), Some(pos(2.)));
    assert_eq!(iter.next(), Some(pos(3.)));
    assert_eq!(iter.next(), Some(pos(4.)));
    assert_eq!(iter.next(), Some(pos(5.)));
    assert_eq!(iter.next(), None);

    let mut descendants = positions.ordered_iter();
    assert_eq!(descendants.next().map(|n| n.data), Some(pos(1.)));
    assert_eq!(descendants.next().map(|n| n.data), Some(pos(3.)));
    assert_eq!(descendants.next().map(|n| n.data), Some(pos(5.)));
    assert_eq!(descendants.next().map(|n| n.data), Some(pos(2.)));
    assert_eq!(descendants.next().map(|n| n.data), Some(pos(4.)));
    assert_eq!(descendants.next().map(|n| n.data), None);
}

#[test]
fn hierarchical_insert_read_write() {
    let mut world = EntityRegistry::new();
    let pos_mask = world.register();
    let mut positions: Forest<Pos> = Forest::new();
    let mut globals: Forest<Pos> = Forest::new();
    let mut add = |world: &mut EntityRegistry, parent: Option<&Entity>, v: f32| -> Entity {
        let g = world.next_guid();
        match parent {
            Some(parent) => {
                positions.insert_child(parent.guid(), g, pos(v));
                globals.insert_child(parent.guid(), g, pos(v));
            },
            None => {
                positions.insert(g, pos(v));
                globals.insert(g, pos(v));
            },
        }
        world.create_entity(pos_mask)
    };
    let e1 = add(&mut world, None, 1.);
    let e2 = add(&mut world, None, 2.);
    let e3 = add(&mut world, Some(&e1), 3.);
    let _e4 = add(&mut world, Some(&e2), 4.);
    let _e5 = add(&mut world, Some(&e3), 5.);

    let mut descendants = positions.ordered_iter();
    assert_eq!(descendants.next().map(|n| n.data), Some(pos(1.)));
    assert_eq!(descendants.next().map(|n| n.data), Some(pos(3.)));
    assert_eq!(descendants.next().map(|n| n.data), Some(pos(5.)));
    assert_eq!(descendants.next().map(|n| n.data), Some(pos(2.)));
    assert_eq!(descendants.next().map(|n| n.data), Some(pos(4.)));
    assert_eq!(descendants.next().map(|n| n.data), None);

    for g in globals.ordered_ids() {
        let parent = globals.get_node(g).parent().map(|p| *globals.arena_ref().data_of(p));
        if let Some(parent) = parent {
            let global = globals.get_mut(g);
            global.x = global.x + parent.x;
            global.y = global.y + parent.y;
        }
    }

    let mut descendants = globals.ordered_iter();
    assert_eq!(descendants.next().map(|n| n.data), Some(pos(1.)));
    assert_eq!(descendants.next().map(|n| n.data), Some(pos(4.)));
    assert_eq!(descendants.next().map(|n| n.data), Some(pos(9.)));
    assert_eq!(descendants.next().map(|n| n.data), Some(pos(2.)));
    assert_eq!(descendants.next().map(|n| n.data), Some(pos(6.)));
    assert_eq!(descendants.next().map(|n| n.data), None);
}

/// Removes every component that `world.remove_entity` reports, from the
/// storage registered under that bit.
fn remove_entity_dense(world: &mut EntityRegistry, e: &Entity, pos_mask: MaskType, positions: &mut DenseVec<Pos>, velocities: &mut DenseVec<Vel>) {
    for bit in world.remove_entity(e) {
        if bit == pos_mask {
            positions.remove(e.guid());
        } else {
            velocities.remove(e.guid());
        }
    }
}

#[test]
fn insert_remove_dense_vec() {
    let mut world = EntityRegistry::new();
    let pos_mask = world.register();
    let vel_mask = world.register();
    let mut positions: DenseVec<Pos> = DenseVec::new();
    let mut velocities: DenseVec<Vel> = DenseVec::new();
    let mut es = Vec::new();
    for v in [1., 2., 3.] {
        let g = world.next_guid();
        positions.insert(g, pos(v));
        velocities.insert(g, vel(v));
        es.push(world.create_entity(pos_mask | vel_mask));
    }
    let both = Bitmask::has(pos_mask).bitor(Bitmask::has(vel_mask));
    let pairs = |world: &EntityRegistry, positions: &DenseVec<Pos>, velocities: &DenseVec<Vel>| -> Vec<(Pos, Vel)> {
        world.entities_for_mask(both).iter().map(|g| (*positions.get(*g).unwrap(), *velocities.get(*g).unwrap())).collect()
    };
    let read = pairs(&world, &positions, &velocities);
    assert_eq!(read.len(), 3);
    assert_eq!(read, vec![(pos(1.), vel(1.)), (pos(2.), vel(2.)), (pos(3.), vel(3.))]);

    world.remove_component_from(&mut velocities, vel_mask, &es[1]);
    let read = pairs(&world, &positions, &velocities);
    assert_eq!(read.len(), 2);
    assert_eq!(read, vec![(pos(1.), vel(1.)), (pos(3.), vel(3.))]);
    let read = read_all(&world, &positions, Bitmask::has(pos_mask));
    assert_eq!(read.len(), 3);
    assert_eq!(read, vec![pos(1.), pos(2.), pos(3.)]);

    let e2 = es[1];
    remove_entity_dense(&mut world, &e2, pos_mask, &mut positions, &mut velocities);
    let read = pairs(&world, &positions, &velocities);
    assert_eq!(read.len(), 2);
    assert_eq!(read, vec![(pos(1.), vel(1.)), (pos(3.), vel(3.))]);
    let read = read_all(&world, &positions, Bitmask::has(pos_mask));
    assert_eq!(read.len(), 2);
    assert_eq!(read, vec![pos(1.), pos(3.)]);
}

#[test]
fn insert_remove_vec() {
    let mut world = EntityRegistry::new();
    let pos_mask = world.register();
    let vel_mask = world.register();
    let mut positions: VecStorage<Pos> = VecStorage::new();
    let mut velocities: VecStorage<Vel> = VecStorage::new();
    let mut es = Vec::new();
    for v in [1., 2., 3.] {
        let g = world.next_guid();
        positions.insert(g, pos(v));
        velocities.insert(g, vel(v));
        es.push(world.create_entity(pos_mask | vel_mask));
    }
    let both = Bitmask::has(pos_mask).bitor(Bitmask::has(vel_mask));
    let pairs = |world: &EntityRegistry, positions: &VecStorage<Pos>, velocities: &VecStorage<Vel>| -> Vec<(Pos, Vel)> {
        world.entities_for_mask(both).iter().map(|g| (*positions.get(*g), *velocities.get(*g))).collect()
    };
    let singles = |world: &EntityRegistry, positions: &VecStorage<Pos>| -> Vec<Pos> {
        world.entities_for_mask(Bitmask::has(pos_mask)).iter().map(|g| *positions.get(*g)).collect()
    };
    assert_eq!(pairs(&world, &positions, &velocities), vec![(pos(1.), vel(1.)), (pos(2.), vel(2.)), (pos(3.), vel(3.))]);

    world.remove_component_from(&mut velocities, vel_mask, &es[1]);
    let read = pairs(&world, &positions, &velocities);
    assert_eq!(read.len(), 2);
    assert_eq!(read, vec![(pos(1.), vel(1.)), (pos(3.), vel(3.))]);
    let read = singles(&world, &positions);
    assert_eq!(read.len(), 3);
    assert_eq!(read, vec![pos(1.), pos(2.), pos(3.)]);

    let e2 = es[1];
    for bit in world.remove_entity(&e2) {
        if bit == pos_mask {
            Storage::remove(&mut positions, e2.guid());
        } else {
            Storage::remove(&mut velocities, e2.guid());
        }
    }
    let read = pairs(&world, &positions, &velocities);
    assert_eq!(read.len(), 2);
    assert_eq!(read, vec![(pos(1.), vel(1.)), (pos(3.), vel(3.))]);
    let read = singles(&world, &positions);
    assert_eq!(read.len(), 2);
    assert_eq!(read, vec![pos(1.), pos(3.)]);
}

#[test]
fn insert_remove_forest() {
    let mut world = EntityRegistry::new();
    let pos_mask = world.register();
    let vel_mask = world.register();
    let mut positions: Forest<Pos> = Forest::new();
    let mut velocities: Forest<Vel> = Forest::new();
    let mut es = Vec::new();
    for v in [1., 2., 3.] {
        let g = world.next_guid();
        positions.insert(g, pos(v));
        velocities.insert(g, vel(v));
        es.push(world.create_entity(pos_mask | vel_mask));
    }
    let both = Bitmask::has(pos_mask).bitor(Bitmask::has(vel_mask));
    let pairs = |world: &EntityRegistry, positions: &Forest<Pos>, velocities: &Forest<Vel>| -> Vec<(Pos, Vel)> {
        world.entities_for_mask(both).iter().map(|g| (*positions.get(*g), *velocities.get(*g))).collect()
    };
    let singles = |world: &EntityRegistry, positions: &Forest<Pos>| -> Vec<Pos> {
        world.entities_for_mask(Bitmask::has(pos_mask)).iter().map(|g| *positions.get(*g)).collect()
    };
    assert_eq!(pairs(&world, &positions, &velocities), vec![(pos(1.), vel(1.)), (pos(2.), vel(2.)), (pos(3.), vel(3.))]);

    world.remove_component_from(&mut velocities, vel_mask, &es[1]);
    let read = pairs(&world, &positions, &velocities);
    assert_eq!(read.len(), 2);
    assert_eq!(read, vec![(pos(1.), vel(1.)), (pos(3.), vel(3.))]);
    let read = singles(&world, &positions);
    assert_eq!(read.len(), 3);
    assert_eq!(read, vec![pos(1.), pos(2.), pos(3.)]);

    let e2 = es[1];
    for bit in world.remove_entity(&e2) {
        if bit == pos_mask {
            positions.remove(e2.guid());
        } else {
            velocities.remove(e2.guid());
        }
    }
    let read = pairs(&world, &positions, &velocities);
    assert_eq!(read.len(), 2);
    assert_eq!(read, vec![(pos(1.), vel(1.)), (pos(3.), vel(3.))]);
    let read = singles(&world, &positions);
    assert_eq!(read.len(), 2);
    assert_eq!(read, vec![pos(1.), pos(3.)]);
}

#[test]
fn insert_read_one_to_n() {
    let mut world = EntityRegistry::new();
    let pos_mask = world.register();
    let mut positions: DenseOneToNVec<Pos> = DenseOneToNVec::new();
    for n in 1..4 {
        let g = world.next_guid();
        let e = world.create_entity(0);
        let run = vec![pos(n as f32); n];
        world.add_slice_component_to(&mut positions, pos_mask, &e, &run);
        assert_eq!(e.guid(), g);
    }
    let guids = world.entities_for_mask(Bitmask::has(pos_mask));
    assert_eq!(guids.len(), 3);
    for g in guids {
        let poss = positions.get(g);
        assert_eq!(poss[0], Pos { x: poss.len() as f32, y: poss.len() as f32 });
    }
}

#[test]
fn insert_read_write_one_to_n() {
    let mut world = EntityRegistry::new();
    let pos_mask = world.register();
    let mut positions: DenseOneToNVec<Pos> = DenseOneToNVec::new();
    for n in 1..4 {
        let e = world.create_entity(0);
        let run = vec![pos(n as f32); n];
        world.add_slice_component_to(&mut positions, pos_mask, &e, &run);
    }
    let guids = world.entities_for_mask(Bitmask::has(pos_mask));
    assert_eq!(guids.len(), 3);
    for g in guids.iter() {
        for p in positions.get_mut(*g).iter_mut() {
            p.x += 1.;
            p.y += 1.;
        }
    }
    for g in guids.iter() {
        let poss = positions.get(*g);
        assert_eq!(poss[0], Pos { x: poss.len() as f32 + 1., y: poss.len() as f32 + 1. });
    }
}

#[test]
fn pointer_to_hierarchy_root() {
    #[derive(Eq, PartialEq, Debug)]
    struct Bone;
    struct Skeleton {
        base_bones: Vec<Entity>,
    }
    let mut world = EntityRegistry::new();
    let bone_mask = world.register();
    let skeleton_mask = world.register();
    let mut bones: Forest<Bone> = Forest::new();
    let mut skeletons: DenseVec<Skeleton> = DenseVec::new();

    let g = world.next_guid();
    bones.insert(g, Bone);
    let root = world.create_entity(bone_mask);
    let g = world.next_guid();
    bones.insert_child(root.guid(), g, Bone);
    let child1 = world.create_entity(bone_mask);
    let g = world.next_guid();
    bones.insert_child(child1.guid(), g, Bone);
    let child2 = world.create_entity(bone_mask);
    let g = world.next_guid();
    bones.insert_child(child1.guid(), g, Bone);
    let child3 = world.create_entity(bone_mask);
    let g = world.next_guid();
    skeletons.insert(g, Skeleton { base_bones: vec![root.clone()] });
    let _skeleton = world.create_entity(skeleton_mask);

    let entities = rinecs::entity::Entities::new(&world);
    for g in world.entities_for_mask(Bitmask::has(skeleton_mask)) {
        let skeleton = skeletons.get(g).unwrap();
        assert_eq!(skeleton.base_bones[0].guid(), root.guid());
        let node = entities.tree_node_for(&bones, &skeleton.base_bones[0]).unwrap();
        let mut descendants = node.id().descendants(bones.arena_ref()).into_iter();
        let mut next = || bones.arena_ref().data_of(descendants.next().unwrap());
        assert_eq!(*next(), *entities.component_for(&bones, &root).unwrap());
        assert_eq!(*next(), *entities.component_for(&bones, &child1).unwrap());
        assert_eq!(*next(), *entities.component_for(&bones, &child2).unwrap());
        assert_eq!(*next(), *entities.component_for(&bones, &child3).unwrap());
    }
}

#[test]
fn read_write_and_parent() {
    let mut world = EntityRegistry::new();
    let pos_mask = world.register();
    let global_mask = world.register();
    let mut positions: Forest<Pos> = Forest::new();
    let mut globals: Forest<Other> = Forest::new();
    let mut add = |world: &mut EntityRegistry, parent: Option<&Entity>, v: f32| -> Entity {
        let g = world.next_guid();
        match parent {
            Some(parent) => {
                positions.insert_child(parent.guid(), g, pos(v));
                globals.insert_child(parent.guid(), g, other(v));
            },
            None => {
                positions.insert(g, pos(v));
                globals.insert(g, other(v));
            },
        }
        world.create_entity(pos_mask | global_mask)
    };
    let e1 = add(&mut world, None, 1.);
    let e2 = add(&mut world, None, 2.);
    let e3 = add(&mut world, Some(&e1), 3.);
    let _e4 = add(&mut world, Some(&e2), 4.);
    let _e5 = add(&mut world, Some(&e3), 5.);

    let guids = world.entities_for_mask(Bitmask::has(pos_mask));
    assert_eq!(guids.len(), 5);
    let read: Vec<Pos> = guids.iter().map(|g| *positions.get(*g)).collect();
    assert_eq!(read, vec![pos(1.), pos(2.), pos(3.), pos(4.), pos(5.)]);

    let mut descendants = positions.ordered_iter();
    assert_eq!(descendants.next().map(|n| n.data), Some(pos(1.)));
    assert_eq!(descendants.next().map(|n| n.data), Some(pos(3.)));
    assert_eq!(descendants.next().map(|n| n.data), Some(pos(5.)));
    assert_eq!(descendants.next().map(|n| n.data), Some(pos(2.)));
    assert_eq!(descendants.next().map(|n| n.data), Some(pos(4.)));
    assert_eq!(descendants.next().map(|n| n.data), None);

    for g in world.ordered_entities_for(&mut globals, Bitmask::has(global_mask)) {
        let parent = globals.get_node(g).parent().map(|p| *globals.arena_ref().data_of(p));
        if let Some(parent) = parent {
            let global = globals.get_mut(g);
            global.x = global.x + parent.x;
            global.y = global.y + parent.y;
        }
    }

    let mut descendants = globals.ordered_iter();
    assert_eq!(descendants.next().map(|n| n.data), Some(other(1.)));
    assert_eq!(descendants.next().map(|n| n.data), Some(other(4.)));
    assert_eq!(descendants.next().map(|n| n.data), Some(other(9.)));
    assert_eq!(descendants.next().map(|n| n.data), Some(other(2.)));
    assert_eq!(descendants.next().map(|n| n.data), Some(other(6.)));
    assert_eq!(descendants.next().map(|n| n.data), None);
}

#[test]
fn insert_read_write_parallel() {
    let mut world = EntityRegistry::new();
    let pos_mask = world.register();
    let c1_mask = world.register();
    let c2_mask = world.register();
    let vel_mask = world.register();
    let mut positions: DenseVec<Pos> = DenseVec::new();
    let mut velocities: DenseVec<Vel> = DenseVec::new();
    for tag in [c1_mask, c2_mask] {
        for i in 0..100usize {
            let g = world.next_guid();
            positions.insert(g, pos(i as f32));
            velocities.insert(g, vel(1.));
            world.create_entity(pos_mask | tag | vel_mask);
        }
    }
    let positions = std::sync::RwLock::new(positions);
    let write = |tag| {
        let filter = Bitmask::has(pos_mask).bitor(Bitmask::has(tag)).bitor(Bitmask::has(vel_mask));
        for g in world.entities_for_mask(filter) {
            let v = *velocities.get(g).unwrap();
            let mut positions = positions.write().unwrap();
            let p = positions.get_unchecked_mut(g);
            p.x += v.x;
            p.y += v.y;
        }
    };
    rayon::join(|| write(c1_mask), || write(c2_mask));

    let positions = positions.into_inner().unwrap();
    let read = read_all(&world, &positions, Bitmask::has(pos_mask));
    assert_eq!(read.len(), 200);
    let mut iter = read.into_iter();
    for i in 0..100 {
        assert_eq!(iter.next(), Some(pos((i + 1) as f32)));
    }
    for i in 0..100 {
        assert_eq!(iter.next(), Some(pos((i + 1) as f32)));
    }
}
