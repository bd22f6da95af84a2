use vstd::prelude::*;
use crate::dense_vec::DenseVec;
use crate::idtree::{Arena, Node, NodeId};
use crate::storage::{HierarchicalOneToNStorage, Storage};

verus! {

/// Every listed root was made by the arena and, while it lives, has no
/// parent.
pub open spec fn roots_parentless<T>(rm: Map<usize, Seq<NodeId>>, a: Arena<T>) -> bool {
    forall|g: usize, j: int|
        #![trigger rm[g][j]]
        rm.contains_key(g) && 0 <= j < rm[g].len() ==> rm[g][j].spec_index() < a.spec_next_id() && (a.contains(rm[g][j])
            ==> a.parent(rm[g][j]) is None)
}

/// Whether `x` lies in the subtree of one of the first `n` nodes of `rs`
/// that `a` holds.
pub open spec fn removed_by<T>(a: Arena<T>, rs: Seq<NodeId>, n: int, x: NodeId) -> bool {
    exists|j: int| 0 <= j < n && a.contains(rs[j]) && #[trigger] a.descendants(rs[j]).contains(x)
}

/// No node is listed as a root twice, for one entity or for two.
pub open spec fn roots_distinct(rm: Map<usize, Seq<NodeId>>) -> bool {
    forall|g: usize, j: int, h: usize, k: int|
        #![trigger rm[g][j], rm[h][k]]
        rm.contains_key(g) && rm.contains_key(h) && 0 <= j < rm[g].len() && 0 <= k < rm[h].len() && rm[g][j]
            == rm[h][k] ==> g == h && j == k
}

/// A storage of any number of component trees per entity: each entity owns
/// a list of root nodes in a shared arena, and nodes may be appended under
/// any node.
pub struct OneToNForest<T> {
    arena: Arena<T>,
    entities_roots: DenseVec<Vec<NodeId>>,
}

impl<T> OneToNForest<T> {
    /// The arena that holds the nodes.
    pub closed spec fn arena(&self) -> Arena<T> {
        self.arena
    }

    /// The roots of each entity, in insertion order.
    pub closed spec fn roots_of(&self) -> Map<usize, Seq<NodeId>> {
        self.entities_roots@.map_values(|v: Vec<NodeId>| v@)
    }

    /// The roots of `guid`, none for an entity without any.
    pub open spec fn roots(&self, guid: usize) -> Seq<NodeId> {
        if self.roots_of().contains_key(guid) {
            self.roots_of()[guid]
        } else {
            Seq::empty()
        }
    }

    pub closed spec fn wf(&self) -> bool {
        &&& self.arena.wf()
        &&& self.entities_roots.wf()
        &&& roots_parentless(self.roots_of(), self.arena)
        &&& roots_distinct(self.roots_of())
    }

    /// Room for one more entity in the index.
    pub open spec fn index_room(&self) -> bool {
        self.roots_of().dom().len() + 1 < usize::MAX
    }

    /// Whether the first root of `guid` is a live node.
    pub open spec fn has_first_root(&self, guid: usize) -> bool {
        &&& self.roots_of().contains_key(guid)
        &&& self.roots(guid).len() > 0
        &&& self.arena().contains(self.roots(guid)[0])
    }

    pub fn new() -> (r: Self)
        ensures
            r.wf(),
            r.index_room(),
            r.roots_of() == Map::<usize, Seq<NodeId>>::empty(),
            r.arena().spec_next_id() == 0,
            r.arena()@ == Map::<usize, Node<T>>::empty(),
    {
        let r = OneToNForest { arena: Arena::new(), entities_roots: DenseVec::new() };
        proof {
            r.entities_roots.lemma_layout();
        }
        assert(r.roots_of() =~= Map::<usize, Seq<NodeId>>::empty());
        r
    }

    pub fn with_capacity(capacity: usize) -> (r: Self)
        ensures
            r.wf(),
            r.index_room(),
            r.roots_of() == Map::<usize, Seq<NodeId>>::empty(),
            r.arena().spec_next_id() == 0,
            r.arena()@ == Map::<usize, Node<T>>::empty(),
    {
        let r = OneToNForest { arena: Arena::with_capacity(capacity), entities_roots: DenseVec::with_capacity(capacity) };
        proof {
            r.entities_roots.lemma_layout();
        }
        assert(r.roots_of() =~= Map::<usize, Seq<NodeId>>::empty());
        r
    }

    /// Creates a new root node holding `t` and adds it after the other roots
    /// of `guid`.
    pub fn insert_root(&mut self, guid: usize, t: T) -> (r: NodeId)
        requires
            old(self).wf(),
            old(self).index_room(),
            guid < usize::MAX,
            old(self).arena().spec_next_id() + 1 < usize::MAX,
        ensures
            final(self).wf(),
            r.spec_index() == old(self).arena().spec_next_id(),
            !old(self).arena().contains(r),
            final(self).arena().spec_next_id() == old(self).arena().spec_next_id() + 1,
            final(self).arena()@.dom() == old(self).arena()@.dom().insert(r.spec_index()),
            final(self).arena().data(r) == t,
            final(self).arena().parent(r) is None,
            final(self).arena().children(r) == Seq::<NodeId>::empty(),
            forall|x: NodeId|
                old(self).arena().contains(x) ==> #[trigger] final(self).arena().data(x) == old(self).arena().data(x),
            final(self).roots_of() == old(self).roots_of().insert(guid, old(self).roots(guid).push(r)),
    {
        let id = self.arena.new_node(t);
        let ghost old_roots = old(self).roots(guid);
        proof {
            self.entities_roots.lemma_layout();
            assert(self.roots_of().dom() =~= self.entities_roots@.dom());
        }
        if self.entities_roots.contains_key(guid) {
            let v = self.entities_roots.get_unchecked_mut(guid);
            v.push(id);
        } else {
            let mut v: Vec<NodeId> = Vec::new();
            v.push(id);
            self.entities_roots.insert(guid, v);
        }
        proof {
            assert(self.roots_of() =~= old(self).roots_of().insert(guid, old_roots.push(id)));
            let rm = self.roots_of();
            let om = old(self).roots_of();
            NodeId::lemma_from_index(0);
            assert forall|g: usize, j: int| rm.contains_key(g) && 0 <= j < rm[g].len() implies rm[g][j].spec_index()
                < self.arena.spec_next_id() && (self.arena.contains(rm[g][j]) ==> self.arena.parent(#[trigger] rm[g][j])
                is None) by {
                let r = rm[g][j];
                if r != id {
                    if g == guid {
                        assert(j < old_roots.len());
                        assert(r == old_roots[j]);
                        assert(om.contains_key(g) && r == om[g][j]);
                    } else {
                        assert(r == om[g][j]);
                    }
                    assert(r.spec_index() < old(self).arena.spec_next_id());
                    if self.arena.contains(r) {
                        assert(NodeId::from_index(r.spec_index()) == r);
                        assert(old(self).arena.contains(r));
                    }
                }
            }
        }
        id
    }

    /// Creates a node holding `t` as the last child of `parent`.
    pub fn insert_child(&mut self, parent: NodeId, t: T) -> (r: NodeId)
        requires
            old(self).wf(),
            old(self).arena().contains(parent),
            old(self).arena().spec_next_id() + 1 < usize::MAX,
        ensures
            final(self).wf(),
            final(self).index_room() == old(self).index_room(),
            final(self).roots_of() == old(self).roots_of(),
            r.spec_index() == old(self).arena().spec_next_id(),
            !old(self).arena().contains(r),
            final(self).arena().spec_next_id() == old(self).arena().spec_next_id() + 1,
            final(self).arena()@.dom() == old(self).arena()@.dom().insert(r.spec_index()),
            final(self).arena().data(r) == t,
            final(self).arena().parent(r) == Some(parent),
            final(self).arena().children(parent) == old(self).arena().children(parent).push(r),
            forall|x: NodeId|
                old(self).arena().contains(x) ==> #[trigger] final(self).arena().data(x) == old(self).arena().data(x),
    {
        let r = parent.append_new(t, &mut self.arena);
        proof {
            let rm = self.roots_of();
            NodeId::lemma_from_index(0);
            assert forall|g: usize, j: int| rm.contains_key(g) && 0 <= j < rm[g].len() implies rm[g][j].spec_index()
                < self.arena.spec_next_id() && (self.arena.contains(rm[g][j]) ==> self.arena.parent(#[trigger] rm[g][j])
                is None) by {
                let x = rm[g][j];
                assert(x.spec_index() < old(self).arena.spec_next_id());
                if self.arena.contains(x) {
                    assert(NodeId::from_index(x.spec_index()) == x);
                    assert(old(self).arena.contains(x));
                }
            }
        }
        r
    }

    /// Removes every component tree of `guid` and forgets its roots.
    pub fn remove(&mut self, guid: usize)
        requires
            old(self).wf(),
            old(self).roots_of().contains_key(guid),
        ensures
            final(self).wf(),
            final(self).roots_of() == old(self).roots_of().remove(guid),
            final(self).arena().spec_next_id() == old(self).arena().spec_next_id(),
            forall|x: NodeId|
                #[trigger] final(self).arena().contains(x) == (old(self).arena().contains(x) && !removed_by(
                    old(self).arena(),
                    old(self).roots(guid),
                    old(self).roots(guid).len() as int,
                    x,
                )),
            forall|x: NodeId|
                final(self).arena().contains(x) ==> #[trigger] final(self).arena().data(x) == old(self).arena().data(x),
            forall|x: NodeId| #[trigger] old(self).roots(guid).contains(x) ==> !final(self).arena().contains(x),
            forall|x: NodeId|
                final(self).arena().contains(x) ==> #[trigger] final(self).arena().parent(x) == old(self).arena().parent(x),
            forall|x: NodeId|
                final(self).arena().contains(x) ==> #[trigger] final(self).arena().children(x) == old(
                    self,
                ).arena().children(x),
            forall|x: NodeId|
                old(self).arena().contains(x) && old(self).arena().parent(x) is None && !old(self).roots(guid).contains(
                    x,
                ) ==> #[trigger] final(self).arena().contains(x),
    {
        proof {
            self.entities_roots.lemma_layout();
        }
        let roots = match self.entities_roots.remove(guid) {
            Some(v) => v,
            None => Vec::new(),
        };
        let ghost rs = roots@;
        assert(rs == old(self).roots(guid));
        let ghost a0 = self.arena;
        let ghost er = self.entities_roots;
        proof {
            assert forall|j: int| 0 <= j < rs.len() && a0.contains(rs[j]) implies a0.parent(#[trigger] rs[j]) is None by {
                assert(old(self).roots_of()[guid][j] == rs[j]);
            }
            let om = old(self).roots_of();
            assert forall|j: int, k: int| 0 <= j < rs.len() && 0 <= k < rs.len() && j != k implies rs[j] != rs[k] by {
                assert(om[guid][j] == rs[j] && om[guid][k] == rs[k]);
            }
            assert forall|x: NodeId| #[trigger] self.arena.contains(x) == (a0.contains(x) && !removed_by(a0, rs, 0, x)) by {
            }
        }
        let mut i: usize = 0;
        while i < roots.len()
            invariant
                self.arena.wf(),
                self.entities_roots == er,
                er.wf(),
                er@ == old(self).entities_roots@.remove(guid),
                roots@ == rs,
                0 <= i <= rs.len(),
                self.arena.spec_next_id() == a0.spec_next_id(),
                forall|x: NodeId| #[trigger] self.arena.contains(x) ==> a0.contains(x),
                forall|x: NodeId| self.arena.contains(x) ==> #[trigger] self.arena.data(x) == a0.data(x),
                forall|x: NodeId| self.arena.contains(x) ==> #[trigger] self.arena.parent(x) == a0.parent(x),
                forall|x: NodeId| self.arena.contains(x) ==> #[trigger] self.arena.children(x) == a0.children(x),
                forall|j: int| 0 <= j < i ==> !self.arena.contains(#[trigger] rs[j]),
                forall|j: int| 0 <= j < rs.len() && a0.contains(rs[j]) ==> a0.parent(#[trigger] rs[j]) is None,
                forall|x: NodeId|
                    a0.contains(x) && a0.parent(x) is None && !rs.contains(x) ==> #[trigger] self.arena.contains(x),
                a0.wf(),
                rs.no_duplicates(),
                forall|x: NodeId| #[trigger] self.arena.contains(x) == (a0.contains(x) && !removed_by(a0, rs, i as int, x)),
            decreases rs.len() - i,
        {
            let id = roots[i];
            if self.arena.contains_node(id) {
                let ghost before = self.arena;
                proof {
                    before.lemma_descendants_unfold(id);
                    assert(before.descendants(id)[0] == id);
                    assert(before.descendants(id).contains(id));
                    assert(a0.contains(rs[i as int]));
                    a0.lemma_descendants_contained(id);
                    assert forall|y: NodeId| #[trigger] a0.descendants(id).contains(y) implies before.contains(y)
                        && before.children(y) == a0.children(y) by {
                        if removed_by(a0, rs, i as int, y) {
                            let j = choose|j: int|
                                0 <= j < i && a0.contains(rs[j]) && #[trigger] a0.descendants(rs[j]).contains(y);
                            assert(rs[j] != rs[i as int]);
                            a0.lemma_root_subtrees_disjoint(rs[j], id, y);
                        }
                    }
                    a0.lemma_descendants_frame(&before, id);
                }
                self.arena.remove_tree(id);
                proof {
                    assert forall|x: NodeId| #[trigger] self.arena.contains(x) == (a0.contains(x) && !removed_by(
                        a0,
                        rs,
                        i as int + 1,
                        x,
                    )) by {
                        if removed_by(a0, rs, i as int + 1, x) && !removed_by(a0, rs, i as int, x) {
                            let j = choose|j: int|
                                0 <= j < i + 1 && a0.contains(rs[j]) && #[trigger] a0.descendants(rs[j]).contains(x);
                            assert(j == i);
                        }
                        if a0.descendants(rs[i as int]).contains(x) {
                            assert(removed_by(a0, rs, i as int + 1, x));
                        }
                        if removed_by(a0, rs, i as int, x) {
                            let j = choose|j: int|
                                0 <= j < i && a0.contains(rs[j]) && #[trigger] a0.descendants(rs[j]).contains(x);
                            assert(removed_by(a0, rs, i as int + 1, x));
                        }
                    }
                    assert forall|x: NodeId| a0.contains(x) && a0.parent(x) is None && !rs.contains(x) implies #[trigger] self.arena.contains(
                        x,
                    ) by {
                        assert(before.contains(x));
                        assert(rs.contains(rs[i as int]));
                    }
                    assert forall|j: int| 0 <= j < i implies !self.arena.contains(#[trigger] rs[j]) by {
                        assert(!before.contains(rs[j]));
                    }
                }
            }
            else {
                proof {
                    let r = rs[i as int];
                    if a0.contains(r) {
                        assert(removed_by(a0, rs, i as int, r));
                        let j = choose|j: int|
                            0 <= j < i && a0.contains(rs[j]) && #[trigger] a0.descendants(rs[j]).contains(r);
                        assert(rs[j] != r);
                        a0.lemma_descendants_unfold(r);
                        assert(a0.descendants(r)[0] == r);
                        assert(a0.descendants(r).contains(r));
                        a0.lemma_root_subtrees_disjoint(r, rs[j], r);
                    }
                    assert forall|x: NodeId| #[trigger] self.arena.contains(x) == (a0.contains(x) && !removed_by(
                        a0,
                        rs,
                        i as int + 1,
                        x,
                    )) by {
                        if removed_by(a0, rs, i as int + 1, x) && !removed_by(a0, rs, i as int, x) {
                            let j = choose|j: int|
                                0 <= j < i + 1 && a0.contains(rs[j]) && #[trigger] a0.descendants(rs[j]).contains(x);
                            assert(j == i);
                        }
                        if removed_by(a0, rs, i as int, x) {
                            let j = choose|j: int|
                                0 <= j < i && a0.contains(rs[j]) && #[trigger] a0.descendants(rs[j]).contains(x);
                            assert(removed_by(a0, rs, i as int + 1, x));
                        }
                    }
                }
            }
            i = i + 1;
        }
        proof {
            assert(self.roots_of() =~= old(self).roots_of().remove(guid));
            assert forall|x: NodeId| #[trigger] rs.contains(x) implies !self.arena.contains(x) by {
                let j = choose|j: int| 0 <= j < rs.len() && rs[j] == x;
                assert(!self.arena.contains(rs[j]));
            }
            let rm = self.roots_of();
            let om = old(self).roots_of();
            assert forall|g: usize, j: int| rm.contains_key(g) && 0 <= j < rm[g].len() implies rm[g][j].spec_index()
                < self.arena.spec_next_id() && (self.arena.contains(rm[g][j]) ==> self.arena.parent(#[trigger] rm[g][j])
                is None) by {
                assert(om.contains_key(g) && rm[g][j] == om[g][j]);
            }
        }
    }

    /// The roots of `guid`, first to last.
    pub fn roots_slice(&self, guid: usize) -> (r: &[NodeId])
        requires
            self.wf(),
            self.roots_of().contains_key(guid),
        ensures
            r@ == self.roots(guid),
    {
        self.entities_roots.get_unchecked(guid).as_slice()
    }

    /// The nodes of the roots of `guid`, one at a time.
    pub fn get(&self, guid: usize) -> (r: RootsIter<'_, T>)
        requires
            self.wf(),
            self.roots_of().contains_key(guid),
            forall|x: NodeId| #[trigger] self.roots(guid).contains(x) ==> self.arena().contains(x),
        ensures
            r.wf(),
            r.remaining() == self.roots(guid),
            r.arena() == self.arena(),
    {
        let roots = self.roots_slice(guid);
        let r = RootsIter { iter: roots, arena: &self.arena, next: 0 };
        assert forall|j: int| 0 <= j < roots@.len() implies self.arena.contains(#[trigger] roots@[j]) by {
            assert(self.roots(guid).contains(roots@[j]));
        }
        assert(r.remaining() =~= self.roots(guid));
        r
    }

    /// The data of the first root of `guid`.
    pub fn get_first(&self, guid: usize) -> (r: &T)
        requires
            self.wf(),
            self.has_first_root(guid),
        ensures
            *r == self.arena().data(self.roots(guid)[0]),
    {
        let roots = self.roots_slice(guid);
        self.arena.data_of(roots[0])
    }

    /// The data of the first root of `guid`, for writing.
    pub fn get_first_mut(&mut self, guid: usize) -> (r: &mut T)
        requires
            old(self).wf(),
            old(self).has_first_root(guid),
        ensures
            *r == old(self).arena().data(old(self).roots(guid)[0]),
            final(self).wf(),
            final(self).roots_of() == old(self).roots_of(),
            final(self).index_room() == old(self).index_room(),
            final(self).arena().data(old(self).roots(guid)[0]) == *final(r),
            forall|x: NodeId| #[trigger] final(self).arena().contains(x) == old(self).arena().contains(x),
            forall|x: NodeId|
                old(self).arena().contains(x) && x != old(self).roots(guid)[0] ==> #[trigger] final(self).arena().data(x)
                    == old(self).arena().data(x),
    {
        let id = self.roots_slice(guid)[0];
        self.arena.data_mut(id)
    }
}

/// The nodes of a list of roots, one at a time.
pub struct RootsIter<'a, T> {
    iter: &'a [NodeId],
    arena: &'a Arena<T>,
    next: usize,
}

impl<'a, T> RootsIter<'a, T> {
    /// The roots not yet handed out.
    pub closed spec fn remaining(&self) -> Seq<NodeId> {
        self.iter@.subrange(self.next as int, self.iter@.len() as int)
    }

    pub closed spec fn arena(&self) -> Arena<T> {
        *self.arena
    }

    pub closed spec fn wf(&self) -> bool {
        &&& self.arena.wf()
        &&& self.next <= self.iter@.len()
        &&& forall|j: int| 0 <= j < self.iter@.len() ==> self.arena.contains(#[trigger] self.iter@[j])
    }

    /// The node of the next root, if any is left.
    pub fn next(&mut self) -> (r: Option<&'a Node<T>>)
        requires
            old(self).wf(),
        ensures
            final(self).wf(),
            final(self).arena() == old(self).arena(),
            old(self).remaining().len() == 0 ==> r is None && final(self).remaining() == old(self).remaining(),
            old(self).remaining().len() > 0 ==> {
                &&& r == Some(&old(self).arena().node(old(self).remaining()[0]))
                &&& final(self).remaining() == old(self).remaining().drop_first()
            },
    {
        if self.next < self.iter.len() {
            let id = self.iter[self.next];
            self.next = self.next + 1;
            proof {
                assert(self.remaining() =~= old(self).remaining().drop_first());
            }
            Some(self.arena.get(id))
        } else {
            None
        }
    }
}

impl<T> OneToNForest<T> {
    /// The data of the roots of `guid`, one at a time, for writing.
    pub fn get_mut(&mut self, guid: usize) -> (r: RootsIterMut<'_, T>)
        requires
            old(self).wf(),
            old(self).roots_of().contains_key(guid),
            forall|x: NodeId| #[trigger] old(self).roots(guid).contains(x) ==> old(self).arena().contains(x),
        ensures
            r.wf(),
            r.remaining() == old(self).roots(guid),
            *r.arena == old(self).arena(),
            final(self).arena() == *final(r.arena),
            final(self).roots_of() == old(self).roots_of(),
            (*final(r.arena)).wf() && (*final(r.arena)).spec_next_id() == old(self).arena().spec_next_id() && (forall|
                x: NodeId,
            | #[trigger] (*final(r.arena)).contains(x) == old(self).arena().contains(x)) && (forall|x: NodeId|
                #[trigger] (*final(r.arena)).parent(x) == old(self).arena().parent(x)) ==> final(self).wf(),
    {
        let slice = self.roots_slice(guid);
        let mut roots: Vec<NodeId> = Vec::new();
        let mut k: usize = 0;
        while k < slice.len()
            invariant
                k <= slice@.len(),
                roots@ == slice@.take(k as int),
            decreases slice@.len() - k,
        {
            roots.push(slice[k]);
            proof {
                assert(slice@.take(k as int + 1) =~= slice@.take(k as int).push(slice@[k as int]));
            }
            k = k + 1;
        }
        proof {
            assert(slice@.take(slice@.len() as int) =~= slice@);
            assert forall|j: int| 0 <= j < roots@.len() implies self.arena.contains(#[trigger] roots@[j]) by {
                assert(self.roots(guid).contains(roots@[j]));
            }
        }
        proof {
            let rm = self.roots_of();
            let a0 = self.arena;
            assert forall|a2: Arena<T>|
                a2.spec_next_id() == a0.spec_next_id() && (forall|x: NodeId| #[trigger] a2.contains(x) == a0.contains(x))
                    && (forall|x: NodeId| #[trigger] a2.parent(x) == a0.parent(x)) implies #[trigger] roots_parentless(
                rm,
                a2,
            ) by {
                assert forall|g: usize, j: int| rm.contains_key(g) && 0 <= j < rm[g].len() implies rm[g][j].spec_index()
                    < a2.spec_next_id() && (a2.contains(rm[g][j]) ==> a2.parent(#[trigger] rm[g][j]) is None) by {
                    assert(a2.contains(rm[g][j]) == a0.contains(rm[g][j]));
                    assert(a2.parent(rm[g][j]) == a0.parent(rm[g][j]));
                }
            }
        }
        let r = RootsIterMut { arena: &mut self.arena, roots, next: 0 };
        assert(r.remaining() =~= r.roots@);
        r
    }
}

/// The data of a list of roots, one at a time, for writing.
pub struct RootsIterMut<'a, T> {
    pub arena: &'a mut Arena<T>,
    pub roots: Vec<NodeId>,
    pub next: usize,
}

impl<'a, T> RootsIterMut<'a, T> {
    /// The roots whose data is not yet handed out.
    pub open spec fn remaining(&self) -> Seq<NodeId> {
        self.roots@.subrange(self.next as int, self.roots@.len() as int)
    }

    pub open spec fn wf(&self) -> bool {
        &&& self.arena.wf()
        &&& self.next <= self.roots@.len()
        &&& forall|k: int| 0 <= k < self.roots@.len() ==> self.arena.contains(#[trigger] self.roots@[k])
    }

    /// The data of the next root, if any is left.
    pub fn next(&mut self) -> (r: Option<&mut T>)
        requires
            old(self).wf(),
        ensures
            final(self).wf(),
            old(self).remaining().len() == 0 ==> r is None && *final(self) == *old(self),
            old(self).remaining().len() > 0 ==> {
                let x = old(self).remaining()[0];
                &&& r is Some
                &&& *r->0 == old(self).arena.data(x)
                &&& final(self).remaining() == old(self).remaining().drop_first()
                &&& final(self).arena.data(x) == *final(r->0)
                &&& forall|y: NodeId| y != x && old(self).arena.contains(y) ==> #[trigger] final(self).arena.data(y)
                    == old(self).arena.data(y)
                &&& final(self).arena.spec_next_id() == old(self).arena.spec_next_id()
                &&& forall|y: NodeId| #[trigger] final(self).arena.contains(y) == old(self).arena.contains(y)
                &&& forall|y: NodeId| #[trigger] final(self).arena.parent(y) == old(self).arena.parent(y)
            },
    {
        if self.next < self.roots.len() {
            let x = self.roots[self.next];
            self.next = self.next + 1;
            proof {
                assert(self.remaining() =~= old(self).remaining().drop_first());
                assert(self.arena.contains(self.roots@[self.next - 1]));
            }
            Some(self.arena.data_mut(x))
        } else {
            None
        }
    }
}

impl<T> Storage<T> for OneToNForest<T> {

    open spec fn spec_contains(&self, guid: usize) -> bool {
        self.has_first_root(guid)
    }

    open spec fn storage_wf(&self) -> bool {
        self.wf()
    }

    open spec fn component(&self, guid: usize) -> &T {
        &self.arena().data(self.roots(guid)[0])
    }

    /// A new root may be added when there is room, and the entity's first
    /// root, if it has one, is a live node.
    open spec fn insert_ok(&self, guid: usize) -> bool {
        &&& self.index_room()
        &&& guid < usize::MAX
        &&& self.arena().spec_next_id() + 1 < usize::MAX
        &&& (self.roots(guid).len() > 0 ==> self.arena().contains(self.roots(guid)[0]))
    }

    open spec fn keeps_apart() -> bool {
        true
    }

    /// The latest component inserted for `guid` is its last root.
    open spec fn stored(&self, guid: usize, t: T) -> bool {
        &&& self.roots(guid).len() > 0
        &&& self.arena().contains(self.roots(guid).last())
        &&& self.arena().data(self.roots(guid).last()) == t
    }

    fn new() -> (r: Self) {
        OneToNForest::new()
    }

    fn with_capacity(capacity: usize) -> (r: Self) {
        OneToNForest::with_capacity(capacity)
    }

    fn insert(&mut self, guid: usize, t: T) {
        let id = self.insert_root(guid, t);
        assert(self.roots(guid)[0] == old(self).roots(guid).push(id)[0]);
    }

    /// Removes every component tree of `guid` and forgets its roots.
    fn remove(&mut self, guid: usize)
        ensures
            final(self).roots_of() == old(self).roots_of().remove(guid),
            final(self).arena().spec_next_id() == old(self).arena().spec_next_id(),
            forall|x: NodeId|
                #[trigger] final(self).arena().contains(x) == (old(self).arena().contains(x) && !removed_by(
                    old(self).arena(),
                    old(self).roots(guid),
                    old(self).roots(guid).len() as int,
                    x,
                )),
            forall|x: NodeId|
                final(self).arena().contains(x) ==> #[trigger] final(self).arena().data(x) == old(self).arena().data(x),
            forall|x: NodeId| #[trigger] old(self).roots(guid).contains(x) ==> !final(self).arena().contains(x),
            forall|x: NodeId|
                final(self).arena().contains(x) ==> #[trigger] final(self).arena().parent(x) == old(self).arena().parent(x),
            forall|x: NodeId|
                final(self).arena().contains(x) ==> #[trigger] final(self).arena().children(x) == old(
                    self,
                ).arena().children(x),
    {
        OneToNForest::remove(self, guid);
        proof {
            let om = old(self).roots_of();
            assert forall|g: usize| g != guid && old(self).has_first_root(g) implies #[trigger] self.has_first_root(g) by {
                let r0 = om[g][0];
                assert(old(self).roots(g)[0] == r0);
                assert(old(self).arena().parent(r0) is None);
                if old(self).roots(guid).contains(r0) {
                    let j = choose|j: int| 0 <= j < old(self).roots(guid).len() && old(self).roots(guid)[j] == r0;
                    assert(om[guid][j] == om[g][0]);
                }
            }
        }
    }

    fn can_insert(&self, guid: usize) -> (r: bool) {
        proof {
            self.entities_roots.lemma_layout();
            assert(self.roots_of().dom() =~= self.entities_roots@.dom());
        }
        let n = self.entities_roots.len();
        let next = self.arena.next_id();
        if n < usize::MAX - 1 && guid < usize::MAX && next < usize::MAX - 1 {
            if self.entities_roots.contains_key(guid) {
                let roots = self.roots_slice(guid);
                roots.len() == 0 || self.arena.contains_node(roots[0])
            } else {
                true
            }
        } else {
            false
        }
    }

    fn contains(&self, guid: usize) -> (r: bool) {
        if self.entities_roots.contains_key(guid) {
            let roots = self.roots_slice(guid);
            roots.len() > 0 && self.arena.contains_node(roots[0])
        } else {
            false
        }
    }

    fn get_for_ptr(&self, guid: usize) -> (r: &T) {
        self.get_first(guid)
    }

    fn get_for_ptr_mut(&mut self, guid: usize) -> (r: &mut T) {
        proof {
            let om = self.roots_of();
            assert forall|g: usize| g != guid && #[trigger] self.has_first_root(g) implies self.roots(g)[0]
                != self.roots(guid)[0] by {
                assert(om[g][0] != om[guid][0]);
            }
        }
        self.get_first_mut(guid)
    }
}

impl<T> HierarchicalOneToNStorage<T> for OneToNForest<T> {
    open spec fn has_node(&self, id: NodeId) -> bool {
        self.arena().contains(id)
    }

    open spec fn root_ok(&self, guid: usize) -> bool {
        self.insert_ok(guid)
    }

    open spec fn child_ok(&self) -> bool {
        self.arena().spec_next_id() + 1 < usize::MAX
    }

    fn insert_root(&mut self, guid: usize, t: T) -> (r: NodeId) {
        let id = OneToNForest::insert_root(self, guid, t);
        assert(self.roots(guid)[0] == old(self).roots(guid).push(id)[0]);
        id
    }

    /// Creates a node holding `t` as the last child of `parent`.
    fn insert_child(&mut self, parent: NodeId, t: T) -> (r: NodeId)
        ensures
            final(self).roots_of() == old(self).roots_of(),
            r.spec_index() == old(self).arena().spec_next_id(),
            !old(self).arena().contains(r),
            final(self).arena().spec_next_id() == old(self).arena().spec_next_id() + 1,
            final(self).arena()@.dom() == old(self).arena()@.dom().insert(r.spec_index()),
            final(self).arena().data(r) == t,
            final(self).arena().parent(r) == Some(parent),
            final(self).arena().children(parent) == old(self).arena().children(parent).push(r),
            forall|x: NodeId|
                old(self).arena().contains(x) ==> #[trigger] final(self).arena().data(x) == old(self).arena().data(x),
    {
        OneToNForest::insert_child(self, parent, t)
    }
}

/// Builds the component trees of one entity in a hierarchical storage.
pub struct HierarchyBuilder<'a, T> {
    pub entity: usize,
    pub storage: &'a mut OneToNForest<T>,
}

impl<'a, T> HierarchyBuilder<'a, T> {
    /// Creates a new root holding `t` for the entity.
    pub fn new_node(&mut self, t: T) -> (r: NodeId)
        requires
            old(self).storage.wf(),
            old(self).storage.index_room(),
            old(self).entity < usize::MAX,
            old(self).storage.arena().spec_next_id() + 1 < usize::MAX,
        ensures
            final(self).entity == old(self).entity,
            final(self).storage.wf(),
            r.spec_index() == old(self).storage.arena().spec_next_id(),
            final(self).storage.arena().data(r) == t,
            final(self).storage.arena().parent(r) is None,
            final(self).storage.roots_of() == old(self).storage.roots_of().insert(
                old(self).entity,
                old(self).storage.roots(old(self).entity).push(r),
            ),
    {
        self.storage.insert_root(self.entity, t)
    }

    /// Creates a node holding `t` as the last child of `parent`.
    pub fn append_child(&mut self, parent: NodeId, t: T) -> (r: NodeId)
        requires
            old(self).storage.wf(),
            old(self).storage.arena().contains(parent),
            old(self).storage.arena().spec_next_id() + 1 < usize::MAX,
        ensures
            final(self).entity == old(self).entity,
            final(self).storage.wf(),
            final(self).storage.index_room() == old(self).storage.index_room(),
            final(self).storage.roots_of() == old(self).storage.roots_of(),
            r.spec_index() == old(self).storage.arena().spec_next_id(),
            final(self).storage.arena().data(r) == t,
            final(self).storage.arena().parent(r) == Some(parent),
            final(self).storage.arena().children(parent) == old(self).storage.arena().children(parent).push(r),
    {
        self.storage.insert_child(parent, t)
    }
}

} // verus!
