use vstd::prelude::*;
use crate::forest::slot;
use crate::idtree::{Arena, NodeId};

verus! {

/// A storage that keeps the component of each entity in a node of an arena
/// of its own, indexed by entity.
pub struct Tree<T> {
    arena: Arena<T>,
    index: Vec<Option<NodeId>>,
}

impl<T> Tree<T> {
    pub closed spec fn arena(&self) -> Arena<T> {
        self.arena
    }

    /// The node that holds the component of entity `guid`, if any.
    pub closed spec fn node_of(&self, guid: usize) -> Option<NodeId> {
        slot(self.index@, guid)
    }

    pub open spec fn has(&self, guid: usize) -> bool {
        self.node_of(guid) is Some
    }

    /// The components, by entity.
    pub open spec fn view(&self) -> Map<usize, T> {
        Map::new(|g: usize| self.has(g), |g: usize| self.arena().data(self.node_of(g).unwrap()))
    }

    pub closed spec fn wf(&self) -> bool {
        &&& self.arena.wf()
        &&& forall|g: usize| #[trigger] slot(self.index@, g) is Some ==> self.arena.contains(
            slot(self.index@, g).unwrap(),
        )
        &&& forall|g: usize, h: usize|
            #![trigger slot(self.index@, g), slot(self.index@, h)]
            slot(self.index@, g) is Some && slot(self.index@, g) == slot(self.index@, h) ==> g == h
    }

    pub fn new() -> (r: Self)
        ensures
            r.wf(),
            r@ == Map::<usize, T>::empty(),
            r.arena().spec_next_id() == 0,
    {
        let r = Tree { arena: Arena::new(), index: Vec::new() };
        assert(r@ =~= Map::<usize, T>::empty());
        r
    }

    /// Stores the component of `guid` in a new node. A component already
    /// stored for `guid` stays in the arena but is no longer reachable.
    pub fn insert(&mut self, guid: usize, t: T)
        requires
            old(self).wf(),
            guid < usize::MAX,
            old(self).arena().spec_next_id() + 1 < usize::MAX,
        ensures
            final(self).wf(),
            final(self)@ == old(self)@.insert(guid, t),
            final(self).arena().spec_next_id() == old(self).arena().spec_next_id() + 1,
    {
        let ghost old_self = *self;
        let id = self.arena.new_node(t);
        let ghost a1 = self.arena;
        while self.index.len() <= guid
            invariant
                guid < usize::MAX,
                self.arena == a1,
                forall|h: usize| #[trigger] slot(self.index@, h) == slot(old_self.index@, h),
            decreases guid + 1 - self.index.len(),
        {
            let ghost prev = self.index@;
            self.index.push(None);
            proof {
                assert forall|h: usize| #[trigger] slot(self.index@, h) == slot(prev, h) by {
                    if h < prev.len() {
                        assert(self.index@[h as int] == prev[h as int]);
                    }
                }
            }
        }
        let ghost mid = self.index@;
        self.index.set(guid, Some(id));
        proof {
            NodeId::lemma_from_index(0);
            let s = *self;
            assert forall|h: usize| h != guid implies #[trigger] slot(s.index@, h) == slot(old_self.index@, h) by {
                assert(slot(mid, h) == slot(old_self.index@, h));
                if h < mid.len() {
                    assert(s.index@[h as int] == mid[h as int]);
                }
            }
            assert(slot(s.index@, guid) == Some(id));
            assert forall|g: usize| #[trigger] slot(s.index@, g) is Some implies s.arena.contains(
                slot(s.index@, g).unwrap(),
            ) by {
                if g != guid {
                    assert(slot(old_self.index@, g) is Some);
                    assert(old_self.arena.contains(slot(old_self.index@, g).unwrap()));
                }
            }
            assert forall|g: usize, h: usize|
                #![trigger slot(s.index@, g), slot(s.index@, h)]
                slot(s.index@, g) is Some && slot(s.index@, g) == slot(s.index@, h) implies g == h by {
                if g != guid && h != guid {
                    assert(slot(old_self.index@, g) == slot(old_self.index@, h));
                } else if g != guid {
                    assert(slot(old_self.index@, g) is Some);
                    assert(old_self.arena.contains(slot(old_self.index@, g).unwrap()));
                } else if h != guid {
                    assert(slot(old_self.index@, h) is Some);
                    assert(old_self.arena.contains(slot(old_self.index@, h).unwrap()));
                }
            }
            assert forall|g: usize| s.has(g) implies #[trigger] s@[g] == old_self@.insert(guid, t)[g] by {
                if g != guid {
                    assert(slot(old_self.index@, g) is Some);
                    assert(old_self.arena.contains(slot(old_self.index@, g).unwrap()));
                }
            }
            assert(s@ =~= old_self@.insert(guid, t));
        }
    }

    fn node_id(&self, guid: usize) -> (r: NodeId)
        requires
            self.has(guid),
        ensures
            self.node_of(guid) == Some(r),
    {
        match self.index[guid] {
            Some(id) => id,
            None => {
                assert(false);
                NodeId { index: 0 }
            },
        }
    }

    /// The component of `guid`.
    pub fn get(&self, guid: usize) -> (r: &T)
        requires
            self.wf(),
            self.has(guid),
        ensures
            *r == self@[guid],
    {
        let id = self.node_id(guid);
        self.arena.data_of(id)
    }

    /// The component of `guid`, for writing.
    pub fn get_mut(&mut self, guid: usize) -> (r: &mut T)
        requires
            old(self).wf(),
            old(self).has(guid),
        ensures
            *r == old(self)@[guid],
            final(self).wf(),
            final(self)@ == old(self)@.insert(guid, *final(r)),
    {
        let id = self.node_id(guid);
        self.arena.data_mut(id)
    }
}

} // verus!
