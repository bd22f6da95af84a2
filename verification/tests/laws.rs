use rinecs::bitmask::Bitmask;
use rinecs::dense_vec::DenseVec;
use rinecs::entity::EntityRegistry;
use rinecs::forest::Forest;
use rinecs::idtree::Arena;

#[test]
fn bitmask_check_each_kind() {
    assert!(Bitmask::all().check(0));
    assert!(Bitmask::has(0b101).check(0b111));
    assert!(!Bitmask::has(0b101).check(0b100));
    assert!(Bitmask::not(0b11).check(0b01));
    assert!(!Bitmask::not(0b11).check(0b11));
    assert!(Bitmask::or(0b110).check(0b010));
    assert!(!Bitmask::or(0b110).check(0b001));
    assert!(Bitmask::has_not(0b1, 0b10).check(0b1));
    assert!(!Bitmask::has_not(0b1, 0b10).check(0b11));
}

#[test]
fn bitmask_bitor_combines_parts() {
    assert_eq!(Bitmask::has(1).bitor(Bitmask::has(2)), Bitmask::Has(3));
    assert_eq!(Bitmask::has(1).bitor(Bitmask::not(2)), Bitmask::HasNot(1, 2));
    assert_eq!(Bitmask::not(2).bitor(Bitmask::has(1)), Bitmask::HasNot(1, 2));
    assert_eq!(Bitmask::has(1).bitor(Bitmask::or(6)), Bitmask::HasOr(1, 6));
    assert_eq!(Bitmask::all().bitor(Bitmask::has(4)), Bitmask::Has(4));
    assert_eq!(Bitmask::has(4).bitor(Bitmask::all()), Bitmask::Has(4));
}

#[test]
fn bitor_is_commutative_on_values() {
    let parts = [Bitmask::has(1), Bitmask::not(2), Bitmask::or(12), Bitmask::all(), Bitmask::has_not(1, 2)];
    for a in parts.iter() {
        for b in parts.iter() {
            assert_eq!(a.bitor(*b), b.bitor(*a));
        }
    }
}

#[test]
fn bitor_passes_what_both_pass() {
    let a = Bitmask::has(1);
    let b = Bitmask::or(6);
    for m in 0..16usize {
        assert_eq!(a.bitor(b).check(m), a.check(m) && b.check(m));
    }
}

#[test]
fn storage_insert_then_remove_restores() {
    let mut d: DenseVec<i32> = DenseVec::new();
    d.insert(1, 10);
    d.insert(3, 30);
    d.remove(3);
    assert_eq!(d.get(1), Some(&10));
    assert_eq!(d.get(3), None);
    assert_eq!(d.len(), 1);
}

#[test]
fn add_then_remove_component_restores_mask() {
    let mut world = EntityRegistry::new();
    let a = world.register();
    let b = world.register();
    let e = world.create_entity(a);
    let mut bs: DenseVec<u8> = DenseVec::new();
    world.add_component_to(&mut bs, b, &e, 0);
    world.remove_component_from(&mut bs, b, &e);
    assert_eq!(world.mask_of(&e), a);
}

#[test]
fn ordered_ids_put_parents_first() {
    let mut f: Forest<u8> = Forest::new();
    f.insert(4, 0);
    f.insert(0, 0);
    f.insert_child(0, 1, 0);
    f.insert_child(4, 2, 0);
    f.insert_child(1, 3, 0);
    let order = f.ordered_ids();
    assert_eq!(order, vec![4, 2, 0, 1, 3]);
    let at = |g: usize| order.iter().position(|x| *x == g).unwrap();
    assert!(at(0) < at(1));
    assert!(at(1) < at(3));
    assert!(at(4) < at(2));
    let mut sorted = order.clone();
    sorted.sort();
    sorted.dedup();
    assert_eq!(sorted.len(), order.len());
}

#[test]
fn descendants_unfold_on_values() {
    let mut a = Arena::new();
    let r = a.new_node(0);
    let c1 = r.append_new(1, &mut a);
    let c2 = r.append_new(2, &mut a);
    let _g = c1.append_new(3, &mut a);
    let mut expected = vec![r];
    expected.extend(c1.descendants(&a));
    expected.extend(c2.descendants(&a));
    assert_eq!(r.descendants(&a), expected);
}
