use rinecs::assoc_vec::{AssocVec, Entry, OccupiedEntry};
use rinecs::dense_vec::DenseVec;
use rinecs::forest::Forest;
use rinecs::oneton_densevec::DenseOneToNVec;
use rinecs::oneton_forest::{HierarchyBuilder, OneToNForest};
use rinecs::storage::{HierarchicalStorage, Storage};
use rinecs::tree::Tree;
use rinecs::vec::VecStorage;

#[test]
fn dense_vec_insert_get_remove() {
    let mut d: DenseVec<&str> = DenseVec::new();
    assert_eq!(d.insert(5, "five"), None);
    assert_eq!(d.insert(2, "two"), None);
    assert_eq!(d.insert(5, "FIVE"), Some("five"));
    assert_eq!(d.len(), 2);
    assert_eq!(d.get(5), Some(&"FIVE"));
    assert_eq!(d.get(3), None);
    assert!(d.contains_key(2));
    assert_eq!(d.values(), &["FIVE", "two"]);
    assert_eq!(d.keys(), &[5, 2]);
    assert_eq!(d.remove(5), Some("FIVE"));
    assert_eq!(d.remove(5), None);
    assert_eq!(d.values(), &["two"]);
    assert!(!d.contains_key(5));
}

#[test]
fn dense_vec_remove_moves_last_into_hole() {
    let mut d: DenseVec<i32> = DenseVec::with_capacity(4);
    d.insert(0, 10);
    d.insert(1, 11);
    d.insert(2, 12);
    d.remove(0);
    assert_eq!(d.values(), &[12, 11]);
    assert_eq!(d.keys(), &[2, 1]);
    assert_eq!(*d.get_unchecked(2), 12);
}

#[test]
fn vec_storage_records_ids_in_insertion_order() {
    let mut v: VecStorage<i32> = Storage::new();
    Storage::insert(&mut v, 3, 30);
    Storage::insert(&mut v, 1, 10);
    assert_eq!(v.ids_slice(), &[3, 1]);
    assert!(Storage::contains(&v, 3));
    assert!(!Storage::contains(&v, 2));
    assert_eq!(*v.get(1), 10);
    *v.get_mut(1) = 11;
    assert_eq!(*Storage::get_for_ptr(&v, 1), 11);
    Storage::remove(&mut v, 3);
    assert_eq!(v.ids_slice(), &[1]);
    assert!(!Storage::contains(&v, 3));
}

#[test]
fn assoc_vec_keeps_entities_sorted() {
    let mut a: AssocVec<&str> = AssocVec::new();
    a.insert(7, "seven");
    a.insert(2, "two");
    a.insert(4, "four");
    let keys: Vec<usize> = a.iter().iter().map(|p| p.0).collect();
    assert_eq!(keys, vec![2, 4, 7]);
    assert_eq!(a.len(), 3);
    assert_eq!(*a.get(4), "four");
    assert!(a.contains(7));
    assert!(!a.contains(5));
    a.remove(4);
    let keys: Vec<usize> = a.iter().iter().map(|p| p.0).collect();
    assert_eq!(keys, vec![2, 7]);
    *a.get_mut(7) = "SEVEN";
    assert_eq!(*a.get(7), "SEVEN");
    for p in a.iter_mut().iter_mut() {
        p.1 = "x";
    }
    assert_eq!(*a.get(2), "x");
}

#[test]
fn assoc_vec_entry_or_insert() {
    let mut a: AssocVec<i32> = AssocVec::new();
    a.insert(0, 1);
    a.insert(1, 2);
    a.insert(2, 3);
    match a.entry(1) {
        Entry::Occupied(_) => {},
        Entry::Vacant(_) => panic!("entity 1 has a component"),
    }
    *a.entry(1).or_insert(100) += 10;
    assert_eq!(*a.get(1), 12);
    assert!(matches!(a.entry(9), Entry::Vacant(_)));
    *a.entry(9).or_insert(90) += 1;
    assert_eq!(*a.get(9), 91);
    assert_eq!(a.len(), 4);
    // an entity at or past the number of components is reported vacant,
    // even one that has a component
    assert!(matches!(a.entry(9), Entry::Vacant(_)));
    match a.entry(2) {
        Entry::Occupied(OccupiedEntry(c)) => assert_eq!(*c, 3),
        Entry::Vacant(_) => panic!("entity 2 has a component"),
    }
}

#[test]
fn forest_remove_splices_children() {
    let mut f: Forest<i32> = Forest::new();
    f.insert(0, 0);
    f.insert_child(0, 1, 1);
    f.insert_child(1, 2, 2);
    f.insert_child(1, 3, 3);
    f.insert(4, 4);
    assert_eq!(f.ordered_ids(), vec![0, 1, 2, 3, 4]);
    f.remove(1);
    assert!(!f.contains(1));
    assert_eq!(f.ordered_ids(), vec![0, 3, 2, 4]);
    assert_eq!(f.get_node(3).parent(), f.get_node(0).parent().or(Some(f.get_node(0).id())));
}

#[test]
fn forest_remove_root_drops_its_children_from_order() {
    let mut f: Forest<i32> = Forest::with_capacity(4);
    f.insert(0, 0);
    f.insert_child(0, 1, 1);
    f.insert(2, 2);
    f.remove(0);
    assert_eq!(f.ordered_ids(), vec![2]);
    assert!(f.contains(1));
    assert_eq!(*f.get(1), 1);
    assert_eq!(f.get_node(1).parent(), None);
}

#[test]
fn forest_get_mut_and_trait_access() {
    let mut f: Forest<i32> = Storage::new();
    Storage::insert(&mut f, 3, 30);
    HierarchicalStorage::insert_child(&mut f, 3, 5, 50);
    *f.get_mut(5) += 1;
    assert_eq!(*Storage::get_for_ptr(&f, 5), 51);
    *Storage::get_for_ptr_mut(&mut f, 3) += 1;
    assert_eq!(*f.get(3), 31);
    assert_eq!(HierarchicalStorage::ordered_ids(&mut f), vec![3, 5]);
    assert_eq!(HierarchicalStorage::get_node(&f, 5).data, 51);
}

#[test]
fn tree_insert_get() {
    let mut t: Tree<i32> = Tree::new();
    t.insert(4, 40);
    t.insert(1, 10);
    assert_eq!(*t.get(4), 40);
    *t.get_mut(1) += 5;
    assert_eq!(*t.get(1), 15);
    t.insert(4, 41);
    assert_eq!(*t.get(4), 41);
}

#[test]
fn one_to_n_runs_and_ids() {
    let mut v: DenseOneToNVec<i32> = DenseOneToNVec::new();
    v.insert_slice(0, &[1, 2]);
    v.insert_slice(1, &[10]);
    v.insert(0, 3);
    assert_eq!(v.get(0), &[1, 2, 3]);
    assert!(v.contains(1));
    assert!(!v.contains(2));
    assert_eq!(*v.get_first(0), 1);
    assert_eq!(*Storage::get_for_ptr(&v, 0), 1);
}

#[test]
fn one_to_n_later_runs_keep_recorded_start() {
    let mut v: DenseOneToNVec<i32> = DenseOneToNVec::new();
    v.insert_slice(0, &[1, 2]);
    v.insert_slice(1, &[10]);
    // growing the first run shifts the second one, whose recorded start stays
    v.insert(0, 3);
    assert_eq!(v.get(1), &[3]);
    for x in v.get_mut(1).iter_mut() {
        *x += 1;
    }
    assert_eq!(v.get(0), &[1, 2, 4]);
}

#[test]
fn one_to_n_remove_drains_run() {
    let mut v: DenseOneToNVec<i32> = DenseOneToNVec::with_capacity(8);
    v.insert_slice(0, &[1, 2]);
    v.insert_slice(1, &[10, 11]);
    v.remove(0);
    assert!(v.contains(0));
    assert!(!Storage::contains(&v, 1));
}

#[test]
fn one_to_n_forest_roots_and_children() {
    let mut f: OneToNForest<i32> = OneToNForest::new();
    let r1 = f.insert_root(0, 1);
    let r2 = f.insert_root(0, 2);
    let c = f.insert_child(r1, 10);
    assert_eq!(f.roots_slice(0), &[r1, r2]);
    let mut it = f.get(0);
    assert_eq!(it.next().map(|n| n.data), Some(1));
    assert_eq!(it.next().map(|n| n.data), Some(2));
    assert!(it.next().is_none());
    assert_eq!(*f.get_first(0), 1);
    *f.get_first_mut(0) = 5;
    assert_eq!(*Storage::get_for_ptr(&f, 0), 5);
    assert!(Storage::contains(&f, 0));
    f.remove(0);
    assert!(!Storage::contains(&f, 0));
    let _ = c;
}

#[test]
fn hierarchy_builder_builds_trees() {
    let mut f: OneToNForest<&str> = OneToNForest::with_capacity(4);
    let mut b = HierarchyBuilder { entity: 7, storage: &mut f };
    let root = b.new_node("root");
    let child = b.append_child(root, "child");
    let _grandchild = b.append_child(child, "grandchild");
    assert_eq!(f.roots_slice(7), &[root]);
    let mut it = f.get(7);
    assert_eq!(it.next().map(|n| n.first_child()), Some(Some(child)));
}

#[test]
fn vec_storage_refuses_a_second_component() {
    let mut v: VecStorage<i32> = Storage::new();
    Storage::insert(&mut v, 2, 20);
    assert!(!Storage::can_insert(&v, 2));
    assert!(Storage::can_insert(&v, 0));
    Storage::remove(&mut v, 2);
    assert!(Storage::can_insert(&v, 2));
}

#[test]
fn forest_keeps_its_order_until_a_removal() {
    let mut f: Forest<i32> = Forest::new();
    f.insert(0, 0);
    f.insert_child(0, 1, 1);
    assert_eq!(f.ordered_ids(), vec![0, 1]);
    f.insert(2, 2);
    f.insert_child(0, 3, 3);
    // the order kept from the last query is answered again
    assert_eq!(f.ordered_ids(), vec![0, 1]);
    f.remove(1);
    assert_eq!(f.ordered_ids(), vec![0, 3, 2]);
}
