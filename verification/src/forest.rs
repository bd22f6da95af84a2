use vstd::prelude::*;
use crate::idtree::{Arena, Node, NodeId};
use crate::storage::{HierarchicalStorage, Storage};
use crate::tree_lemmas::lemma_remove_no_dup;

verus! {

/// The entry of `index` for entity `g`: `None` past its end.
pub open spec fn slot(index: Seq<Option<NodeId>>, g: usize) -> Option<NodeId> {
    if g < index.len() {
        index[g as int]
    } else {
        None
    }
}

/// The subtrees of `s` followed by the subtree of `x` are the subtrees of
/// `s` with `x` pushed.
pub proof fn lemma_descendants_list_push<T>(a: Arena<T>, s: Seq<NodeId>, x: NodeId)
    ensures
        a.descendants_list(s.push(x)) == a.descendants_list(s) + a.descendants(x),
    decreases s.len(),
{
    if s.len() == 0 {
        let e = Seq::<NodeId>::empty();
        assert(s =~= e);
        assert(s.push(x).drop_first() =~= e);
        assert(s.push(x)[0] == x);
        assert(a.descendants_list(e) == e);
        assert(a.descendants_list(s.push(x)) == a.descendants(x) + a.descendants_list(e));
        assert(a.descendants_list(s.push(x)) =~= a.descendants_list(s) + a.descendants(x));
    } else {
        assert(s.push(x).drop_first() =~= s.drop_first().push(x));
        lemma_descendants_list_push(a, s.drop_first(), x);
        assert(s.push(x)[0] == s[0]);
        assert(a.descendants_list(s.push(x)) =~= a.descendants_list(s) + a.descendants(x));
    }
}

/// A storage that keeps the components of its entities in a forest: each
/// component is a node, and a component may be inserted as the child of
/// another entity's component.
pub struct Forest<T> {
    arena: Arena<T>,
    roots: Vec<NodeId>,
    index: Vec<Option<NodeId>>,
    ordered_cache: Vec<usize>,
}

impl<T> Forest<T> {
    /// The arena that holds the nodes.
    pub closed spec fn arena(&self) -> Arena<T> {
        self.arena
    }

    /// The top-level nodes, in insertion order.
    pub closed spec fn roots(&self) -> Seq<NodeId> {
        self.roots@
    }

    /// The node that holds the component of entity `guid`, if any.
    pub closed spec fn node_of(&self, guid: usize) -> Option<NodeId> {
        slot(self.index@, guid)
    }

    pub open spec fn has(&self, guid: usize) -> bool {
        self.node_of(guid) is Some
    }

    /// The hierarchy order kept from the last time it was computed: empty
    /// until it is first asked for and after every removal.
    pub closed spec fn cache(&self) -> Seq<usize> {
        self.ordered_cache@
    }

    /// What `ordered_ids` answers now: the kept order when there is one, or
    /// else the order of the hierarchy as it stands.
    pub open spec fn ordered_now(&self) -> Seq<usize> {
        if self.cache().len() == 0 {
            self.ordered_guids()
        } else {
            self.cache()
        }
    }

    /// The entity whose component node `x` holds.
    pub open spec fn guid_of(&self, x: NodeId) -> usize {
        choose|g: usize| self.node_of(g) == Some(x)
    }

    /// The components, by entity.
    pub open spec fn view(&self) -> Map<usize, T> {
        Map::new(|g: usize| self.has(g), |g: usize| self.arena().data(self.node_of(g).unwrap()))
    }

    /// The entities in hierarchy order: the subtree of each root in turn,
    /// each node before its children.
    pub open spec fn ordered_guids(&self) -> Seq<usize> {
        self.arena().descendants_list(self.roots()).map_values(|x: NodeId| self.guid_of(x))
    }

    pub closed spec fn wf(&self) -> bool {
        &&& self.arena.wf()
        &&& forall|g: usize| #[trigger] slot(self.index@, g) is Some ==> self.arena.contains(
            slot(self.index@, g).unwrap(),
        )
        &&& forall|g: usize, h: usize|
            #![trigger slot(self.index@, g), slot(self.index@, h)]
            slot(self.index@, g) is Some && slot(self.index@, g) == slot(self.index@, h) ==> g == h
        &&& forall|x: NodeId| #[trigger] self.arena.contains(x) ==> exists|g: usize| slot(self.index@, g) == Some(x)
        &&& self.roots@.no_duplicates()
        &&& forall|r: NodeId| #[trigger]
            self.roots@.contains(r) ==> self.arena.contains(r) && self.arena.parent(r) is None
        &&& forall|k: int|
            0 <= k < self.ordered_cache@.len() ==> slot(self.index@, #[trigger] self.ordered_cache@[k]) is Some
    }

    /// What a well-formed forest guarantees to its users.
    pub proof fn lemma_wf(&self)
        requires
            self.wf(),
        ensures
            self.arena().wf(),
            forall|g: usize| #[trigger] self.has(g) ==> self.arena().contains(self.node_of(g).unwrap()),
            forall|g: usize, h: usize| #[trigger] self.has(g) && #[trigger] self.has(h) && self.node_of(g) == self.node_of(h) ==> g == h,
            forall|x: NodeId| #[trigger] self.arena().contains(x) ==> self.node_of(self.guid_of(x)) == Some(x),
            forall|r: NodeId| #[trigger] self.roots().contains(r) ==> self.arena().contains(r) && self.arena().parent(r) is None,
            self.roots().no_duplicates(),
    {
        assert forall|x: NodeId| #[trigger] self.arena().contains(x) implies self.node_of(self.guid_of(x)) == Some(x) by {
            let g = choose|g: usize| slot(self.index@, g) == Some(x);
            assert(self.node_of(g) == Some(x));
        }
    }

    /// In the hierarchy order, every entity whose component has a parent
    /// node comes after the entity that holds the parent.
    pub proof fn lemma_ordered_parent_first(&self, j: int)
        requires
            self.wf(),
            0 <= j < self.ordered_guids().len(),
            self.arena().parent(self.node_of(self.ordered_guids()[j]).unwrap()) is Some,
        ensures
            exists|i: int|
                0 <= i < j && #[trigger] self.node_of(self.ordered_guids()[i]) == self.arena().parent(
                    self.node_of(self.ordered_guids()[j]).unwrap(),
                ),
    {
        self.lemma_wf();
        let a = self.arena();
        let l = a.descendants_list(self.roots());
        a.lemma_descendants_list_contained(self.roots());
        a.lemma_parent_first_in(self.roots(), j);
        let o = self.ordered_guids();
        assert(o[j] == self.guid_of(l[j]));
        assert(l.contains(l[j]));
        assert(self.node_of(o[j]) == Some(l[j]));
        if self.roots().contains(l[j]) {
            assert(a.parent(l[j]) is None);
        } else {
            let i = choose|i: int| 0 <= i < j && Some(#[trigger] l[i]) == a.parent(l[j]);
            assert(o[i] == self.guid_of(l[i]));
            assert(l.contains(l[i]));
            assert(self.node_of(o[i]) == Some(l[i]));
        }
    }

    /// The hierarchy order lists no entity twice.
    pub proof fn lemma_ordered_no_duplicates(&self)
        requires
            self.wf(),
        ensures
            self.ordered_guids().no_duplicates(),
    {
        self.lemma_wf();
        let a = self.arena();
        let l = a.descendants_list(self.roots());
        a.lemma_roots_descendants_nodup(self.roots());
        a.lemma_descendants_list_contained(self.roots());
        let o = self.ordered_guids();
        assert forall|i: int, j: int| 0 <= i < o.len() && 0 <= j < o.len() && i != j implies o[i] != o[j] by {
            assert(l.contains(l[i]) && l.contains(l[j]));
            assert(self.node_of(o[i]) == Some(l[i]));
            assert(self.node_of(o[j]) == Some(l[j]));
        }
    }

    fn empty_with(arena: Arena<T>, roots: Vec<NodeId>, index: Vec<Option<NodeId>>) -> (r: Self)
        requires
            arena.wf(),
            arena@ == Map::<usize, Node<T>>::empty(),
            roots@.len() == 0,
            index@.len() == 0,
        ensures
            r.wf(),
            r@ == Map::<usize, T>::empty(),
            forall|g: usize| !r.has(g),
            r.roots() == Seq::<NodeId>::empty(),
            r.arena().spec_next_id() == arena.spec_next_id(),
            r.cache() == Seq::<usize>::empty(),
    {
        let r = Forest { arena, roots, index, ordered_cache: Vec::new() };
        assert forall|x: NodeId| #[trigger] r.arena.contains(x) implies exists|g: usize| slot(r.index@, g) == Some(x) by {
            assert(r.arena@.dom().contains(x.spec_index()));
        }
        assert(r@ =~= Map::<usize, T>::empty());
        assert(r.roots@ =~= Seq::<NodeId>::empty());
        r
    }

    pub fn new() -> (r: Self)
        ensures
            r.wf(),
            r@ == Map::<usize, T>::empty(),
            forall|g: usize| !r.has(g),
            r.roots() == Seq::<NodeId>::empty(),
            r.arena().spec_next_id() == 0,
    {
        Self::empty_with(Arena::new(), Vec::new(), Vec::new())
    }

    pub fn with_capacity(capacity: usize) -> (r: Self)
        ensures
            r.wf(),
            r@ == Map::<usize, T>::empty(),
            forall|g: usize| !r.has(g),
            r.roots() == Seq::<NodeId>::empty(),
            r.arena().spec_next_id() == 0,
    {
        Self::empty_with(Arena::with_capacity(capacity), Vec::with_capacity(capacity), Vec::with_capacity(capacity))
    }

    /// Records that the component of `guid` is node `id`, growing the index
    /// as needed.
    fn set_slot(&mut self, guid: usize, id: Option<NodeId>)
        requires
            guid < usize::MAX,
        ensures
            final(self).arena == old(self).arena,
            final(self).roots == old(self).roots,
            final(self).ordered_cache == old(self).ordered_cache,
            slot(final(self).index@, guid) == id,
            forall|h: usize| h != guid ==> #[trigger] slot(final(self).index@, h) == slot(old(self).index@, h),
    {
        while self.index.len() <= guid
            invariant
                guid < usize::MAX,
                self.arena == old(self).arena,
                self.roots == old(self).roots,
                self.ordered_cache == old(self).ordered_cache,
                forall|h: usize| #[trigger] slot(self.index@, h) == slot(old(self).index@, h),
            decreases guid + 1 - self.index.len(),
        {
            let ghost prev = self.index@;
            self.index.push(None);
            proof {
                assert forall|h: usize| #[trigger] slot(self.index@, h) == slot(prev, h) by {
                    if h < prev.len() {
                        assert(self.index@[h as int] == prev[h as int]);
                    }
                }
            }
        }
        let ghost mid = self.index@;
        self.index.set(guid, id);
        proof {
            assert forall|h: usize| h != guid implies #[trigger] slot(self.index@, h) == slot(old(self).index@, h) by {
                assert(slot(mid, h) == slot(old(self).index@, h));
                if h < mid.len() {
                    assert(self.index@[h as int] == mid[h as int]);
                }
            }
        }
    }

    /// Whether entity `guid` has a component here.
    pub fn contains(&self, guid: usize) -> (r: bool)
        ensures
            r == self.has(guid),
    {
        if guid < self.index.len() {
            self.index[guid].is_some()
        } else {
            false
        }
    }

    fn node_id(&self, guid: usize) -> (r: NodeId)
        requires
            self.has(guid),
        ensures
            self.node_of(guid) == Some(r),
    {
        match self.index[guid] {
            Some(id) => id,
            None => { assert(false); NodeId { index: 0 } },
        }
    }

    /// Adds the component of `guid` as a new root, after the existing ones.
    pub fn insert(&mut self, guid: usize, t: T)
        requires
            old(self).wf(),
            !old(self).has(guid),
            guid < usize::MAX,
            old(self).arena().spec_next_id() + 1 < usize::MAX,
        ensures
            final(self).wf(),
            final(self)@ == old(self)@.insert(guid, t),
            final(self).has(guid),
            final(self).roots() == old(self).roots().push(final(self).node_of(guid).unwrap()),
            final(self).cache() == old(self).cache(),
            final(self).arena().parent(final(self).node_of(guid).unwrap()) is None,
            final(self).arena().children(final(self).node_of(guid).unwrap()) == Seq::<NodeId>::empty(),
            !old(self).arena().contains(final(self).node_of(guid).unwrap()),
            final(self).arena().spec_next_id() == old(self).arena().spec_next_id() + 1,
            forall|h: usize| h != guid ==> #[trigger] final(self).node_of(h) == old(self).node_of(h),
            forall|x: NodeId|
                #![trigger final(self).arena().parent(x)]
                old(self).arena().contains(x) ==> final(self).arena().parent(x) == old(self).arena().parent(x),
            forall|x: NodeId|
                #![trigger final(self).arena().children(x)]
                old(self).arena().contains(x) ==> final(self).arena().children(x) == old(self).arena().children(x),
    {
        let ghost old_self = *self;
        let id = self.arena.new_node(t);
        self.set_slot(guid, Some(id));
        self.roots.push(id);
        proof {
            NodeId::lemma_from_index(0);
            let s = *self;
            assert(s.node_of(guid) == Some(id));
            assert forall|g: usize| #[trigger] slot(s.index@, g) is Some implies s.arena.contains(
                slot(s.index@, g).unwrap(),
            ) by {
                if g != guid {
                    assert(slot(old_self.index@, g) is Some);
                    assert(old_self.arena.contains(slot(old_self.index@, g).unwrap()));
                    assert(old_self.arena@.dom().contains(slot(old_self.index@, g).unwrap().spec_index()));
                }
            }
            assert forall|g: usize, h: usize|
                #![trigger slot(s.index@, g), slot(s.index@, h)]
                slot(s.index@, g) is Some && slot(s.index@, g) == slot(s.index@, h) implies g == h by {
                if g != guid && h != guid {
                    assert(slot(old_self.index@, g) == slot(old_self.index@, h));
                } else if g != guid {
                    assert(slot(old_self.index@, g) is Some);
                    assert(old_self.arena.contains(slot(old_self.index@, g).unwrap()));
                } else if h != guid {
                    assert(slot(old_self.index@, h) is Some);
                    assert(old_self.arena.contains(slot(old_self.index@, h).unwrap()));
                }
            }
            assert forall|x: NodeId| #[trigger] s.arena.contains(x) implies exists|g: usize| slot(s.index@, g) == Some(x) by {
                if x == id {
                    assert(slot(s.index@, guid) == Some(x));
                } else {
                    assert(NodeId::from_index(x.spec_index()) == x);
                    assert(NodeId::from_index(id.spec_index()) == id);
                    assert(s.arena@.dom().contains(x.spec_index()));
                    assert(old_self.arena@.dom().contains(x.spec_index()));
                    assert(old_self.arena.contains(x));
                    assert(exists|g: usize| slot(old_self.index@, g) == Some(x));
                    let g = choose|g: usize| slot(old_self.index@, g) == Some(x);
                    assert(slot(old_self.index@, guid) is None);
                    assert(g != guid);
                    assert(slot(s.index@, g) == Some(x));
                }
            }
            assert forall|r: NodeId| #[trigger] s.roots@.contains(r) implies s.arena.contains(r) && s.arena.parent(r) is None by {
                if r != id {
                    let j = choose|j: int| 0 <= j < s.roots@.len() && s.roots@[j] == r;
                    assert(old_self.roots@[j] == r);
                    assert(old_self.roots@.contains(r));
                    assert(old_self.arena@.dom().contains(r.spec_index()));
                }
            }
            assert(!old_self.roots@.contains(id));
            assert forall|i: int, j: int| 0 <= i < s.roots@.len() && 0 <= j < s.roots@.len() && i != j implies s.roots@[i]
                != s.roots@[j] by {
                if i < old_self.roots@.len() && j < old_self.roots@.len() {
                } else if i < old_self.roots@.len() {
                    assert(old_self.roots@.contains(s.roots@[i]));
                } else if j < old_self.roots@.len() {
                    assert(old_self.roots@.contains(s.roots@[j]));
                }
            }
            assert forall|g: usize| #[trigger] s.has(g) == old_self@.insert(guid, t).dom().contains(g) by {
            }
            assert forall|g: usize| s.has(g) implies #[trigger] s@[g] == old_self@.insert(guid, t)[g] by {
                if g != guid {
                    assert(old_self.arena.contains(slot(old_self.index@, g).unwrap()));
                    assert(old_self.arena@.dom().contains(slot(old_self.index@, g).unwrap().spec_index()));
                }
            }
            assert(s@ =~= old_self@.insert(guid, t));
            assert forall|k: int| 0 <= k < s.ordered_cache@.len() implies slot(s.index@, #[trigger] s.ordered_cache@[k])
                is Some by {
                assert(slot(old_self.index@, old_self.ordered_cache@[k]) is Some);
            }
        }
    }

    /// The component of `guid`.
    pub fn get(&self, guid: usize) -> (r: &T)
        requires
            self.wf(),
            self.has(guid),
        ensures
            *r == self@[guid],
    {
        let id = self.node_id(guid);
        self.arena.data_of(id)
    }

    /// The component of `guid`, for writing. The hierarchy does not change.
    pub fn get_mut(&mut self, guid: usize) -> (r: &mut T)
        requires
            old(self).wf(),
            old(self).has(guid),
        ensures
            *r == old(self)@[guid],
            final(self).wf(),
            final(self)@ == old(self)@.insert(guid, *final(r)),
            final(self).roots() == old(self).roots(),
            final(self).cache() == old(self).cache(),
            forall|h: usize| #[trigger] final(self).node_of(h) == old(self).node_of(h),
            forall|x: NodeId| #[trigger] final(self).arena().parent(x) == old(self).arena().parent(x),
            forall|x: NodeId| #[trigger] final(self).arena().children(x) == old(self).arena().children(x),
    {
        let id = self.node_id(guid);
        let ghost old_self = *self;
        proof {
            old_self.lemma_wf();
        }
        self.arena.data_mut(id)
    }

    fn root_position(&self, id: NodeId) -> (r: Option<usize>)
        ensures
            match r {
                Some(k) => k < self.roots@.len() && self.roots@[k as int] == id,
                None => !self.roots@.contains(id),
            },
    {
        let mut k: usize = 0;
        while k < self.roots.len()
            invariant
                k <= self.roots@.len(),
                forall|j: int| 0 <= j < k ==> self.roots@[j] != id,
            decreases self.roots@.len() - k,
        {
            if self.roots[k] == id {
                return Some(k);
            }
            k = k + 1;
        }
        None
    }

    /// Removes the component of `guid`. Its children take its place under its
    /// parent (in reverse order); those of a root become parentless nodes
    /// that are no longer listed among the roots.
    pub fn remove(&mut self, guid: usize)
        requires
            old(self).wf(),
            old(self).has(guid),
        ensures
            final(self).wf(),
            final(self)@ == old(self)@.remove(guid),
            !final(self).has(guid),
            final(self).cache() == Seq::<usize>::empty(),
            forall|h: usize| h != guid ==> #[trigger] final(self).node_of(h) == old(self).node_of(h),
            final(self).roots() == if old(self).roots().contains(old(self).node_of(guid).unwrap()) {
                old(self).roots().remove(old(self).roots().index_of(old(self).node_of(guid).unwrap()))
            } else {
                old(self).roots()
            },
            ({
                let x = old(self).node_of(guid).unwrap();
                let cs = old(self).arena().children(x);
                forall|y: NodeId|
                    #![trigger final(self).arena().parent(y)]
                    old(self).arena().contains(y) && y != x ==> final(self).arena().parent(y) == if cs.contains(y) {
                        old(self).arena().parent(x)
                    } else {
                        old(self).arena().parent(y)
                    }
            }),
    {
        let ghost old_self = *self;
        proof {
            old_self.lemma_wf();
        }
        let id = self.node_id(guid);
        self.arena.remove(id);
        self.index.set(guid, None);
        self.ordered_cache.clear();
        match self.root_position(id) {
            Some(k) => {
                proof {
                    let rs = self.roots@;
                    assert(rs.contains(id));
                    let i = rs.index_of(id);
                    assert(rs[i] == id);
                    assert(i == k as int);
                }
                self.roots.remove(k);
            },
            None => {},
        }
        proof {
            let s = *self;
            let ghost ar = old_self.arena;
            assert forall|x: NodeId| #[trigger] s.arena.contains(x) <==> ar.contains(x) && x != id by {
                assert(s.arena@.dom().contains(x.spec_index()) == (ar@.dom().contains(x.spec_index()) && x.spec_index()
                    != id.spec_index()));
                NodeId::lemma_from_index(x.spec_index());
                NodeId::lemma_from_index(id.spec_index());
            }
            assert forall|g: usize| #[trigger] slot(s.index@, g) is Some implies s.arena.contains(
                slot(s.index@, g).unwrap(),
            ) by {
                assert(slot(old_self.index@, g) is Some);
                assert(ar.contains(slot(old_self.index@, g).unwrap()));
                assert(slot(old_self.index@, g) != slot(old_self.index@, guid));
            }
            assert forall|g: usize, h: usize|
                #![trigger slot(s.index@, g), slot(s.index@, h)]
                slot(s.index@, g) is Some && slot(s.index@, g) == slot(s.index@, h) implies g == h by {
                assert(slot(old_self.index@, g) == slot(old_self.index@, h));
            }
            assert forall|x: NodeId| #[trigger] s.arena.contains(x) implies exists|g: usize| slot(s.index@, g) == Some(x) by {
                assert(ar.contains(x));
                let g = choose|g: usize| slot(old_self.index@, g) == Some(x);
                assert(g != guid);
                assert(slot(s.index@, g) == Some(x));
            }
            let k = old_self.roots@.index_of(id);
            if old_self.roots@.contains(id) {
                assert(old_self.roots@[k] == id);
                lemma_remove_no_dup(old_self.roots@, k);
            }
            assert forall|r: NodeId| #[trigger] s.roots@.contains(r) implies s.arena.contains(r) && s.arena.parent(r)
                is None by {
                assert(old_self.roots@.contains(r));
                assert(r != id);
                assert(ar.contains(r));
                ar.lemma_children_parent(id);
            }
            assert forall|g: usize| #[trigger] s.has(g) == old_self@.remove(guid).dom().contains(g) by {
            }
            assert forall|g: usize| s.has(g) implies #[trigger] s@[g] == old_self@.remove(guid)[g] by {
                assert(slot(old_self.index@, g) != slot(old_self.index@, guid));
            }
            assert(s@ =~= old_self@.remove(guid));
        }
    }

    /// Adds the component of `guid` as the last child of that of
    /// `parent_guid`.
    pub fn insert_child(&mut self, parent_guid: usize, guid: usize, value: T)
        requires
            old(self).wf(),
            old(self).has(parent_guid),
            !old(self).has(guid),
            guid < usize::MAX,
            old(self).arena().spec_next_id() + 1 < usize::MAX,
        ensures
            final(self).wf(),
            final(self)@ == old(self)@.insert(guid, value),
            final(self).has(guid),
            final(self).roots() == old(self).roots(),
            final(self).cache() == old(self).cache(),
            forall|h: usize| h != guid ==> #[trigger] final(self).node_of(h) == old(self).node_of(h),
            !old(self).arena().contains(final(self).node_of(guid).unwrap()),
            final(self).arena().spec_next_id() == old(self).arena().spec_next_id() + 1,
            final(self).arena().parent(final(self).node_of(guid).unwrap()) == old(self).node_of(parent_guid),
            final(self).arena().children(final(self).node_of(guid).unwrap()) == Seq::<NodeId>::empty(),
            final(self).arena().children(old(self).node_of(parent_guid).unwrap()) == old(self).arena().children(
                old(self).node_of(parent_guid).unwrap(),
            ).push(final(self).node_of(guid).unwrap()),
            forall|x: NodeId|
                #![trigger final(self).arena().parent(x)]
                old(self).arena().contains(x) ==> final(self).arena().parent(x) == old(self).arena().parent(x),
            forall|x: NodeId|
                #![trigger final(self).arena().children(x)]
                old(self).arena().contains(x) && Some(x) != old(self).node_of(parent_guid)
                    ==> final(self).arena().children(x) == old(self).arena().children(x),
    {
        let ghost old_self = *self;
        proof {
            old_self.lemma_wf();
        }
        let parent_id = self.node_id(parent_guid);
        let id = parent_id.append_new(value, &mut self.arena);
        self.set_slot(guid, Some(id));
        proof {
            let s = *self;
            let ar = old_self.arena;
            assert forall|x: NodeId| #[trigger] s.arena.contains(x) <==> ar.contains(x) || x == id by {
                assert(s.arena@.dom().contains(x.spec_index()) == (ar@.dom().contains(x.spec_index()) || x.spec_index()
                    == id.spec_index()));
                NodeId::lemma_from_index(x.spec_index());
                NodeId::lemma_from_index(id.spec_index());
            }
            assert forall|g: usize| #[trigger] slot(s.index@, g) is Some implies s.arena.contains(
                slot(s.index@, g).unwrap(),
            ) by {
                if g != guid {
                    assert(slot(old_self.index@, g) is Some);
                }
            }
            assert forall|g: usize, h: usize|
                #![trigger slot(s.index@, g), slot(s.index@, h)]
                slot(s.index@, g) is Some && slot(s.index@, g) == slot(s.index@, h) implies g == h by {
                if g != guid && h != guid {
                    assert(slot(old_self.index@, g) == slot(old_self.index@, h));
                } else if g != guid {
                    assert(slot(old_self.index@, g) is Some);
                    assert(ar.contains(slot(old_self.index@, g).unwrap()));
                } else if h != guid {
                    assert(slot(old_self.index@, h) is Some);
                    assert(ar.contains(slot(old_self.index@, h).unwrap()));
                }
            }
            assert forall|x: NodeId| #[trigger] s.arena.contains(x) implies exists|g: usize| slot(s.index@, g) == Some(x) by {
                if x == id {
                    assert(slot(s.index@, guid) == Some(x));
                } else {
                    assert(ar.contains(x));
                    let g = choose|g: usize| slot(old_self.index@, g) == Some(x);
                    assert(g != guid);
                    assert(slot(s.index@, g) == Some(x));
                }
            }
            assert forall|r: NodeId| #[trigger] s.roots@.contains(r) implies s.arena.contains(r) && s.arena.parent(r) is None by {
                assert(old_self.roots@.contains(r));
            }
            assert forall|g: usize| #[trigger] s.has(g) == old_self@.insert(guid, value).dom().contains(g) by {
            }
            assert forall|g: usize| s.has(g) implies #[trigger] s@[g] == old_self@.insert(guid, value)[g] by {
                if g != guid {
                    assert(old_self.has(g));
                }
            }
            assert(s@ =~= old_self@.insert(guid, value));
            assert forall|k: int| 0 <= k < s.ordered_cache@.len() implies slot(s.index@, #[trigger] s.ordered_cache@[k])
                is Some by {
                assert(slot(old_self.index@, old_self.ordered_cache@[k]) is Some);
            }
        }
    }

    /// The arena that holds the nodes, for reading.
    pub fn arena_ref(&self) -> (r: &Arena<T>)
        ensures
            *r == self.arena(),
    {
        &self.arena
    }

    /// The node that holds the component of `guid`.
    pub fn get_node(&self, guid: usize) -> (r: &Node<T>)
        requires
            self.wf(),
            self.has(guid),
        ensures
            *r == self.arena().node(self.node_of(guid).unwrap()),
            r.spec_id() == self.node_of(guid).unwrap(),
            r.spec_parent() == self.arena().parent(self.node_of(guid).unwrap()),
    {
        proof {
            self.lemma_wf();
        }
        let id = self.node_id(guid);
        self.arena.get(id)
    }

    fn guid_for(&self, x: NodeId) -> (g: usize)
        requires
            self.wf(),
            self.arena().contains(x),
        ensures
            g == self.guid_of(x),
            self.node_of(g) == Some(x),
    {
        proof {
            self.lemma_wf();
        }
        let ghost w = self.guid_of(x);
        let mut g: usize = 0;
        while g < self.index.len()
            invariant
                self.wf(),
                self.node_of(w) == Some(x),
                g <= self.index@.len(),
                forall|h: usize| h < g ==> #[trigger] slot(self.index@, h) != Some(x),
            decreases self.index@.len() - g,
        {
            match self.index[g] {
                Some(id) => {
                    if id == x {
                        assert(slot(self.index@, g) == slot(self.index@, w));
                        return g;
                    }
                },
                None => {},
            }
            g = g + 1;
        }
        assert(slot(self.index@, w) == Some(x));
        0
    }

    /// The entities in hierarchy order, each before its children. The order
    /// is computed when none is kept and then kept: until the next removal
    /// the same order is answered, also after insertions.
    pub fn ordered_ids(&mut self) -> (r: Vec<usize>)
        requires
            old(self).wf(),
        ensures
            r@ == old(self).ordered_now(),
            final(self).wf(),
            final(self).cache() == r@,
            final(self).ordered_now() == r@,
            final(self).arena() == old(self).arena(),
            final(self).roots() == old(self).roots(),
            forall|h: usize| #[trigger] final(self).node_of(h) == old(self).node_of(h),
            final(self)@ == old(self)@,
            forall|i: int| 0 <= i < r@.len() ==> final(self).has(#[trigger] r@[i]),
    {
        if self.ordered_cache.len() == 0 {
            let ids = self.compute_ordered();
            let mut copy: Vec<usize> = Vec::new();
            let mut i: usize = 0;
            while i < ids.len()
                invariant
                    i <= ids@.len(),
                    copy@ == ids@.take(i as int),
                decreases ids@.len() - i,
            {
                copy.push(ids[i]);
                proof {
                    assert(ids@.take(i as int + 1) =~= ids@.take(i as int).push(ids@[i as int]));
                }
                i = i + 1;
            }
            proof {
                assert(ids@.take(ids@.len() as int) =~= ids@);
                assert forall|k: int| 0 <= k < ids@.len() implies slot(self.index@, #[trigger] ids@[k]) is Some by {
                    assert(self.node_of(ids@[k]) == Some(self.arena().descendants_list(self.roots())[k]));
                }
            }
            self.ordered_cache = copy;
            proof {
                assert(self@ =~= old(self)@);
            }
            ids
        } else {
            let mut copy: Vec<usize> = Vec::new();
            let mut i: usize = 0;
            while i < self.ordered_cache.len()
                invariant
                    i <= self.ordered_cache@.len(),
                    copy@ == self.ordered_cache@.take(i as int),
                decreases self.ordered_cache@.len() - i,
            {
                copy.push(self.ordered_cache[i]);
                proof {
                    assert(self.ordered_cache@.take(i as int + 1) =~= self.ordered_cache@.take(i as int).push(
                        self.ordered_cache@[i as int],
                    ));
                }
                i = i + 1;
            }
            proof {
                assert(self.ordered_cache@.take(self.ordered_cache@.len() as int) =~= self.ordered_cache@);
            }
            copy
        }
    }

    /// The entities in hierarchy order: the subtree of each root in turn,
    /// each node before its children.
    fn compute_ordered(&self) -> (r: Vec<usize>)
        requires
            self.wf(),
        ensures
            r@ == self.ordered_guids(),
            r@.len() == self.arena().descendants_list(self.roots()).len(),
            forall|i: int|
                0 <= i < r@.len() ==> #[trigger] self.node_of(r@[i]) == Some(
                    self.arena().descendants_list(self.roots())[i],
                ),
    {
        proof {
            self.lemma_wf();
        }
        let ghost a = self.arena;
        let ghost rs = self.roots@;
        let mut out: Vec<usize> = Vec::new();
        let mut i: usize = 0;
        while i < self.roots.len()
            invariant
                self.wf(),
                a == self.arena,
                rs == self.roots@,
                i <= rs.len(),
                out@.len() == a.descendants_list(rs.take(i as int)).len(),
                forall|k: int|
                    0 <= k < out@.len() ==> #[trigger] out@[k] == self.guid_of(a.descendants_list(rs.take(i as int))[k])
                        && self.node_of(out@[k]) == Some(a.descendants_list(rs.take(i as int))[k]),
            decreases rs.len() - i,
        {
            let root = self.roots[i];
            assert(rs.contains(root));
            let ds = self.arena.descendants_of(root);
            proof {
                a.lemma_descendants_contained(root);
                assert(rs.take(i as int + 1) =~= rs.take(i as int).push(root));
                lemma_descendants_list_push(a, rs.take(i as int), root);
            }
            let ghost before = out@;
            let ghost prefix = a.descendants_list(rs.take(i as int));
            let mut j: usize = 0;
            while j < ds.len()
                invariant
                    self.wf(),
                    a == self.arena,
                    ds@ == a.descendants(root),
                    forall|y: NodeId| #[trigger] ds@.contains(y) ==> a.contains(y),
                    j <= ds@.len(),
                    out@.len() == before.len() + j,
                    before.len() == prefix.len(),
                    forall|k: int| 0 <= k < before.len() ==> #[trigger] out@[k] == before[k],
                    forall|k: int|
                        0 <= k < before.len() ==> #[trigger] before[k] == self.guid_of(prefix[k]) && self.node_of(
                            before[k],
                        ) == Some(prefix[k]),
                    forall|k: int|
                        0 <= k < j ==> #[trigger] out@[before.len() + k] == self.guid_of(ds@[k]) && self.node_of(
                            out@[before.len() + k],
                        ) == Some(ds@[k]),
                decreases ds@.len() - j,
            {
                assert(ds@.contains(ds@[j as int]));
                let g = self.guid_for(ds[j]);
                out.push(g);
                j = j + 1;
            }
            proof {
                let full = a.descendants_list(rs.take(i as int + 1));
                assert(full == prefix + ds@);
                assert forall|k: int| 0 <= k < out@.len() implies #[trigger] out@[k] == self.guid_of(full[k])
                    && self.node_of(out@[k]) == Some(full[k]) by {
                    if k < before.len() {
                        assert(full[k] == prefix[k]);
                    } else {
                        assert(full[k] == ds@[k - before.len()]);
                        assert(out@[before.len() + (k - before.len())] == out@[k]);
                    }
                }
            }
            i = i + 1;
        }
        proof {
            assert(rs.take(rs.len() as int) =~= rs);
            assert(out@ =~= self.ordered_guids());
        }
        out
    }
}

impl<T> Forest<T> {
    /// The nodes in hierarchy order, one at a time.
    pub fn ordered_iter(&mut self) -> (r: ForestHierarchicalIter<'_, T>)
        requires
            old(self).wf(),
        ensures
            r.wf(),
            r.remaining() == old(self).ordered_now(),
            r.forest().arena() == old(self).arena(),
            r.forest()@ == old(self)@,
            forall|h: usize| #[trigger] r.forest().node_of(h) == old(self).node_of(h),
            *final(self) == r.forest(),
    {
        let ids = self.ordered_ids();
        let r = ForestHierarchicalIter { forest: self, ids, next: 0 };
        assert(r.remaining() =~= r.ids@);
        r
    }
}

/// The nodes of a forest in hierarchy order, one at a time.
pub struct ForestHierarchicalIter<'a, T> {
    forest: &'a Forest<T>,
    ids: Vec<usize>,
    next: usize,
}

impl<'a, T> ForestHierarchicalIter<'a, T> {
    /// The entities whose nodes are not yet handed out.
    pub closed spec fn remaining(&self) -> Seq<usize> {
        self.ids@.subrange(self.next as int, self.ids@.len() as int)
    }

    pub closed spec fn forest(&self) -> Forest<T> {
        *self.forest
    }

    pub closed spec fn wf(&self) -> bool {
        &&& self.forest.wf()
        &&& self.next <= self.ids@.len()
        &&& forall|k: int| 0 <= k < self.ids@.len() ==> self.forest.has(#[trigger] self.ids@[k])
    }

    /// The node of the next entity, if any is left.
    pub fn next(&mut self) -> (r: Option<&'a Node<T>>)
        requires
            old(self).wf(),
        ensures
            final(self).wf(),
            final(self).forest() == old(self).forest(),
            old(self).remaining().len() == 0 ==> r is None && final(self).remaining() == old(self).remaining(),
            old(self).remaining().len() > 0 ==> {
                &&& r == Some(
                    &old(self).forest().arena().node(old(self).forest().node_of(old(self).remaining()[0]).unwrap()),
                )
                &&& final(self).remaining() == old(self).remaining().drop_first()
            },
    {
        if self.next < self.ids.len() {
            let g = self.ids[self.next];
            self.next = self.next + 1;
            proof {
                assert(self.remaining() =~= old(self).remaining().drop_first());
            }
            Some(self.forest.get_node(g))
        } else {
            None
        }
    }
}

impl<T> Forest<T> {
    /// The components in hierarchy order, one at a time, for writing.
    pub fn ordered_iter_mut(&mut self) -> (r: ForestHierarchicalIterMut<'_, T>)
        requires
            old(self).wf(),
        ensures
            r.wf(),
            r.remaining() == old(self).ordered_now(),
            (*r.forest).arena() == old(self).arena(),
            (*r.forest)@ == old(self)@,
            forall|h: usize| #[trigger] (*r.forest).node_of(h) == old(self).node_of(h),
            *final(self) == *final(r.forest),
    {
        let ids = self.ordered_ids();
        let r = ForestHierarchicalIterMut { forest: self, ids, next: 0 };
        assert(r.remaining() =~= r.ids@);
        r
    }
}

/// The components of a forest in hierarchy order, one at a time, for
/// writing.
pub struct ForestHierarchicalIterMut<'a, T> {
    pub forest: &'a mut Forest<T>,
    pub ids: Vec<usize>,
    pub next: usize,
}

impl<'a, T> ForestHierarchicalIterMut<'a, T> {
    /// The entities whose components are not yet handed out.
    pub closed spec fn remaining(&self) -> Seq<usize> {
        self.ids@.subrange(self.next as int, self.ids@.len() as int)
    }

    pub closed spec fn wf(&self) -> bool {
        &&& self.forest.wf()
        &&& self.next <= self.ids@.len()
        &&& forall|k: int| 0 <= k < self.ids@.len() ==> self.forest.has(#[trigger] self.ids@[k])
    }

    /// The component of the next entity, if any is left.
    pub fn next(&mut self) -> (r: Option<&mut T>)
        requires
            old(self).wf(),
        ensures
            final(self).wf(),
            old(self).remaining().len() == 0 ==> r is None && *final(self) == *old(self),
            old(self).remaining().len() > 0 ==> {
                let g = old(self).remaining()[0];
                &&& r is Some
                &&& *r->0 == (*old(self).forest)@[g]
                &&& final(self).remaining() == old(self).remaining().drop_first()
                &&& (*final(self).forest)@ == (*old(self).forest)@.insert(g, *final(r->0))
                &&& forall|h: usize| #[trigger] final(self).forest.has(h) == old(self).forest.has(h)
            },
    {
        if self.next < self.ids.len() {
            let g = self.ids[self.next];
            self.next = self.next + 1;
            proof {
                assert(self.remaining() =~= old(self).remaining().drop_first());
            }
            Some(self.forest.get_mut(g))
        } else {
            None
        }
    }
}

impl<T> Storage<T> for Forest<T> {

    open spec fn spec_contains(&self, guid: usize) -> bool {
        self.has(guid)
    }

    open spec fn storage_wf(&self) -> bool {
        self.wf()
    }

    open spec fn component(&self, guid: usize) -> &T {
        &self@[guid]
    }

    open spec fn insert_ok(&self, guid: usize) -> bool {
        &&& !self.has(guid)
        &&& guid < usize::MAX
        &&& self.arena().spec_next_id() + 1 < usize::MAX
    }

    open spec fn keeps_apart() -> bool {
        true
    }

    open spec fn stored(&self, guid: usize, t: T) -> bool {
        self@.contains_key(guid) && self@[guid] == t
    }

    fn new() -> (r: Self) {
        Forest::new()
    }

    fn with_capacity(capacity: usize) -> (r: Self) {
        Forest::with_capacity(capacity)
    }

    fn insert(&mut self, guid: usize, t: T) {
        Forest::insert(self, guid, t)
    }

    /// Drops the component of `guid`; the other entities keep their nodes.
    fn remove(&mut self, guid: usize)
        ensures
            final(self)@ == old(self)@.remove(guid),
            !final(self).has(guid),
            forall|h: usize| h != guid ==> #[trigger] final(self).node_of(h) == old(self).node_of(h),
    {
        Forest::remove(self, guid)
    }

    fn contains(&self, guid: usize) -> (r: bool) {
        Forest::contains(self, guid)
    }

    fn can_insert(&self, guid: usize) -> (r: bool) {
        let next = self.arena_ref().next_id();
        !Forest::contains(self, guid) && guid < usize::MAX && next < usize::MAX - 1
    }

    fn get_for_ptr(&self, guid: usize) -> (r: &T) {
        Forest::get(self, guid)
    }

    fn get_for_ptr_mut(&mut self, guid: usize) -> (r: &mut T) {
        Forest::get_mut(self, guid)
    }
}

impl<T> HierarchicalStorage<T> for Forest<T> {
    open spec fn tree_node(&self, guid: usize) -> &Node<T> {
        &self.arena().node(self.node_of(guid).unwrap())
    }

    open spec fn ordered(&self) -> Seq<usize> {
        self.ordered_now()
    }

    fn insert_child(&mut self, parent_guid: usize, guid: usize, value: T) {
        Forest::insert_child(self, parent_guid, guid, value)
    }

    fn get_node(&self, guid: usize) -> (r: &Node<T>) {
        Forest::get_node(self, guid)
    }

    fn ordered_ids(&mut self) -> (r: Vec<usize>) {
        Forest::ordered_ids(self)
    }
}

} // verus!
