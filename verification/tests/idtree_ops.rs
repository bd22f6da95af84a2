use rinecs::idtree::{Arena, NodeEdge, NodeId};

fn data(arena: &Arena<i32>, ids: &[NodeId]) -> Vec<i32> {
    ids.iter().map(|id| *arena.data_of(*id)).collect()
}

/// 1 -> (2 -> (4), 3)
fn sample() -> (Arena<i32>, Vec<NodeId>) {
    let mut a = Arena::new();
    let n1 = a.new_node(1);
    let n2 = n1.append_new(2, &mut a);
    let n3 = n1.append_new(3, &mut a);
    let n4 = n2.append_new(4, &mut a);
    (a, vec![n1, n2, n3, n4])
}

#[test]
fn arena_links_after_appends() {
    let (a, n) = sample();
    assert_eq!(a.len(), 4);
    assert_eq!(a.get(n[0]).parent(), None);
    assert_eq!(a.get(n[1]).parent(), Some(n[0]));
    assert_eq!(a.get(n[0]).first_child(), Some(n[1]));
    assert_eq!(a.get(n[0]).last_child(), Some(n[2]));
    assert_eq!(a.get(n[1]).next_sibling(), Some(n[2]));
    assert_eq!(a.get(n[2]).previous_sibling(), Some(n[1]));
    assert_eq!(a.get(n[3]).id(), n[3]);
    assert_eq!(data(&a, &n[0].children(&a)), vec![2, 3]);
    assert_eq!(data(&a, &n[0].reverse_children(&a)), vec![3, 2]);
}

#[test]
fn arena_descendants_in_tree_order() {
    let (a, n) = sample();
    assert_eq!(data(&a, &n[0].descendants(&a)), vec![1, 2, 4, 3]);
    assert_eq!(data(&a, &n[3].ancestors(&a)), vec![4, 2, 1]);
    assert_eq!(data(&a, &n[1].following_siblings(&a)), vec![2, 3]);
    assert_eq!(data(&a, &n[2].preceding_siblings(&a)), vec![3, 2]);
}

#[test]
fn arena_traverse_edges() {
    let (a, n) = sample();
    let t = n[1].traverse(&a);
    assert_eq!(t, vec![NodeEdge::Start(n[1]), NodeEdge::Start(n[3]), NodeEdge::End(n[3]), NodeEdge::End(n[1])]);
    let r = n[0].reverse_traverse(&a);
    let mut forward = n[0].traverse(&a);
    forward.reverse();
    assert_eq!(r, forward);
    assert_eq!(r[0], NodeEdge::End(n[0]));
}

#[test]
fn arena_prepend_and_insert_siblings() {
    let (mut a, n) = sample();
    let n0 = n[0].prepend_new(0, &mut a);
    assert_eq!(data(&a, &n[0].children(&a)), vec![0, 2, 3]);
    let n5 = n[1].insert_after_new(5, &mut a);
    assert_eq!(data(&a, &n[0].children(&a)), vec![0, 2, 5, 3]);
    let _n6 = n0.insert_before_new(6, &mut a);
    assert_eq!(data(&a, &n[0].children(&a)), vec![6, 0, 2, 5, 3]);
    assert_eq!(a.get(n5).parent(), Some(n[0]));
}

#[test]
fn arena_append_moves_subtree() {
    let (mut a, n) = sample();
    // move 2 (with its child 4) under 3
    n[2].append(n[1], &mut a);
    assert_eq!(data(&a, &n[0].children(&a)), vec![3]);
    assert_eq!(data(&a, &n[2].children(&a)), vec![2]);
    assert_eq!(data(&a, &n[0].descendants(&a)), vec![1, 3, 2, 4]);
}

#[test]
fn arena_insert_after_moves_node() {
    let (mut a, n) = sample();
    n[2].insert_after(n[3], &mut a);
    assert_eq!(data(&a, &n[0].children(&a)), vec![2, 3, 4]);
    assert_eq!(data(&a, &n[1].children(&a)), Vec::<i32>::new());
    n[1].insert_before(n[3], &mut a);
    assert_eq!(data(&a, &n[0].children(&a)), vec![4, 2, 3]);
    n[1].prepend(n[2], &mut a);
    assert_eq!(data(&a, &n[1].children(&a)), vec![3]);
}

#[test]
fn arena_detach_keeps_children() {
    let (mut a, n) = sample();
    n[1].detach(&mut a);
    assert_eq!(a.get(n[1]).parent(), None);
    assert_eq!(data(&a, &n[0].children(&a)), vec![3]);
    assert_eq!(data(&a, &n[1].children(&a)), vec![4]);
    assert_eq!(a.len(), 4);
}

#[test]
fn arena_remove_splices_children_reversed() {
    let mut a = Arena::new();
    let r = a.new_node(0);
    let x = r.append_new(1, &mut a);
    let _y = r.append_new(2, &mut a);
    let _c1 = x.append_new(10, &mut a);
    let _c2 = x.append_new(11, &mut a);
    a.remove(x);
    assert_eq!(a.len(), 4);
    assert_eq!(data(&a, &r.children(&a)), vec![11, 10, 2]);
}

#[test]
fn arena_remove_root_frees_children() {
    let (mut a, n) = sample();
    a.remove(n[0]);
    assert_eq!(a.len(), 3);
    assert_eq!(a.get(n[1]).parent(), None);
    assert_eq!(a.get(n[2]).parent(), None);
    assert_eq!(a.get(n[1]).next_sibling(), None);
}

#[test]
fn arena_remove_tree_takes_subtree() {
    let (mut a, n) = sample();
    a.remove_tree(n[1]);
    assert_eq!(a.len(), 2);
    assert!(!a.contains_node(n[1]));
    assert!(!a.contains_node(n[3]));
    assert!(a.contains_node(n[2]));
    assert_eq!(data(&a, &n[0].children(&a)), vec![3]);
}

#[test]
fn arena_all_nodes_in_storage_order() {
    let (a, _n) = sample();
    let mut it = a.all_nodes();
    let mut seen = Vec::new();
    while let Some(node) = it.next() {
        seen.push(node.data);
    }
    assert_eq!(seen, vec![1, 2, 3, 4]);
}

#[test]
fn arena_data_mut_writes() {
    let (mut a, n) = sample();
    *a.data_mut(n[2]) = 30;
    assert_eq!(*a.data_of(n[2]), 30);
    assert_eq!(data(&a, &n[0].descendants(&a)), vec![1, 2, 4, 30]);
}

#[test]
fn arena_node_links_follow_each_operation() {
    let mut a: Arena<i32> = Arena::new();
    let p = a.new_node(0);
    let n = a.get(p);
    assert_eq!((n.parent(), n.first_child(), n.last_child()), (None, None, None));
    assert_eq!((n.previous_sibling(), n.next_sibling()), (None, None));
    let c1 = a.new_node(1);
    p.append(c1, &mut a);
    let c0 = a.new_node(2);
    p.prepend(c0, &mut a);
    assert_eq!(a.get(p).first_child(), Some(c0));
    assert_eq!(a.get(p).last_child(), Some(c1));
    let mid = a.new_node(3);
    c0.insert_after(mid, &mut a);
    assert_eq!(a.get(c0).next_sibling(), Some(mid));
    assert_eq!(a.get(mid).previous_sibling(), Some(c0));
    assert_eq!(a.get(mid).next_sibling(), Some(c1));
    let first = a.new_node(4);
    c0.insert_before(first, &mut a);
    assert_eq!(a.get(p).first_child(), Some(first));
    assert_eq!(a.get(first).next_sibling(), Some(c0));
    let g = mid.append_new(5, &mut a);
    let below_mid = mid.descendants(&a);
    mid.detach(&mut a);
    assert_eq!(a.get(mid).parent(), None);
    assert_eq!((a.get(mid).previous_sibling(), a.get(mid).next_sibling()), (None, None));
    assert_eq!(mid.descendants(&a), below_mid);
    assert_eq!(below_mid, vec![mid, g]);
    assert_eq!(a.get(c0).next_sibling(), Some(c1));
    assert_eq!(a.get(c1).previous_sibling(), Some(c0));
    assert_eq!(p.children(&a), vec![first, c0, c1]);
}

#[test]
fn arena_into_vec_in_storage_order() {
    let (a, ids) = sample();
    let nodes = a.into_vec();
    assert_eq!(nodes.len(), 4);
    assert_eq!(nodes.iter().map(|n| n.data).collect::<Vec<_>>(), vec![1, 2, 3, 4]);
    assert_eq!(nodes[0].id(), ids[0]);
}

#[test]
fn arena_root_siblings_link_both_ways() {
    let mut a: Arena<i32> = Arena::new();
    let r0 = a.new_node(0);
    let r1 = a.new_node(1);
    let r2 = a.new_node(2);
    r0.insert_after(r2, &mut a);
    r0.insert_after(r1, &mut a);
    assert_eq!(a.get(r0).next_sibling(), Some(r1));
    assert_eq!(a.get(r1).previous_sibling(), Some(r0));
    assert_eq!(a.get(r1).next_sibling(), Some(r2));
    assert_eq!(a.get(r2).previous_sibling(), Some(r1));
    assert_eq!(a.get(r2).next_sibling(), None);
    assert_eq!((a.get(r0).parent(), a.get(r1).parent(), a.get(r2).parent()), (None, None, None));
    assert_eq!(r0.following_siblings(&a), vec![r0, r1, r2]);
}
