use rinecs::forest::Forest;
use rinecs::idtree::Arena;
use rinecs::oneton_forest::OneToNForest;
use rinecs::schedule::{schedule, Priority, Step};

#[test]
fn forest_ordered_iter_mut_writes_in_hierarchy_order() {
    let mut f: Forest<Vec<usize>> = Forest::new();
    f.insert(0, vec![]);
    f.insert(1, vec![]);
    f.insert_child(0, 2, vec![]);
    let mut step = 0;
    {
        let mut it = f.ordered_iter_mut();
        while let Some(d) = it.next() {
            d.push(step);
            step += 1;
        }
    }
    assert_eq!(f.get(0), &vec![0]);
    assert_eq!(f.get(2), &vec![1]);
    assert_eq!(f.get(1), &vec![2]);
}

#[test]
fn arena_all_nodes_mut_visits_storage_order() {
    let mut a = Arena::new();
    let r = a.new_node(1);
    let c = r.append_new(2, &mut a);
    let _d = c.append_new(3, &mut a);
    {
        let mut it = a.all_nodes_mut();
        let mut k = 10;
        while let Some(d) = it.next() {
            *d += k;
            k += 10;
        }
    }
    assert_eq!(r.descendants(&a).iter().map(|id| *a.data_of(*id)).collect::<Vec<_>>(), vec![11, 22, 33]);
}

#[test]
fn one_to_n_forest_roots_mut() {
    let mut f: OneToNForest<i32> = OneToNForest::new();
    f.insert_root(3, 1);
    f.insert_root(3, 2);
    {
        let mut it = f.get_mut(3);
        while let Some(d) = it.next() {
            *d *= 10;
        }
    }
    let mut it = f.get(3);
    assert_eq!(it.next().map(|n| n.data), Some(10));
    assert_eq!(it.next().map(|n| n.data), Some(20));
}

#[test]
fn schedule_groups_send_runs() {
    let q = [
        Priority::Send(0),
        Priority::Send(1),
        Priority::ThreadLocal(0),
        Priority::Send(2),
        Priority::Barrier,
        Priority::Send(3),
        Priority::Creation(0),
        Priority::Barrier,
    ];
    assert_eq!(
        schedule(&q),
        vec![Step::Parallel(0, 2), Step::ThreadLocal(0), Step::Parallel(3, 4), Step::Parallel(5, 6), Step::Creation(0)]
    );
    assert_eq!(schedule(&[]), Vec::<Step>::new());
    assert_eq!(schedule(&[Priority::Barrier]), Vec::<Step>::new());
}
