use vstd::prelude::*;
use crate::storage::Storage;

verus! {

/// Components kept in a vector indexed by entity, with the entities that
/// have one listed in the order in which their components were added.
pub struct VecStorage<T> {
    storage: Vec<Option<T>>,
    ids: Vec<usize>,
}

impl<T> VecStorage<T> {
    /// The components, by entity.
    pub closed spec fn view(&self) -> Map<usize, T> {
        Map::new(
            |g: usize| self.ids@.contains(g),
            |g: usize| self.storage@[g as int]->0,
        )
    }

    /// The entities that have a component, in the order they were added.
    pub closed spec fn ids(&self) -> Seq<usize> {
        self.ids@
    }

    pub closed spec fn wf(&self) -> bool {
        &&& self.ids@.no_duplicates()
        &&& forall|i: int|
            #![trigger self.ids@[i]]
            0 <= i < self.ids@.len() ==> self.ids@[i] < self.storage@.len() && self.storage@[self.ids@[i] as int] is Some
        &&& forall|g: usize|
            #![trigger self.storage@[g as int]]
            g < self.storage@.len() && self.storage@[g as int] is Some ==> self.ids@.contains(g)
    }

    /// The entities that have a component, in the order they were added.
    pub fn ids_slice(&self) -> (r: &[usize])
        ensures
            r@ == self.ids(),
    {
        self.ids.as_slice()
    }

    pub fn get(&self, guid: usize) -> (r: &T)
        requires
            self.wf(),
            self@.contains_key(guid),
        ensures
            *r == self@[guid],
    {
        proof {
            let j = choose|j: int| 0 <= j < self.ids@.len() && self.ids@[j] == guid;
            assert(self.ids@[j] < self.storage@.len());
        }
        self.storage[guid].as_ref().unwrap()
    }

    pub fn get_mut(&mut self, guid: usize) -> (r: &mut T)
        requires
            old(self).wf(),
            old(self)@.contains_key(guid),
        ensures
            *r == old(self)@[guid],
            final(self).wf(),
            final(self)@ == old(self)@.insert(guid, *final(r)),
            final(self).ids() == old(self).ids(),
    {
        proof {
            let j = choose|j: int| 0 <= j < self.ids@.len() && self.ids@[j] == guid;
            assert(self.ids@[j] < self.storage@.len());
        }
        self.slot(guid).as_mut().unwrap()
    }

    fn slot(&mut self, guid: usize) -> (r: &mut Option<T>)
        requires
            guid < old(self).storage@.len(),
        ensures
            *r == old(self).storage@[guid as int],
            final(self).storage@ == old(self).storage@.update(guid as int, *final(r)),
            final(self).ids == old(self).ids,
    {
        &mut self.storage[guid]
    }
}

impl<T> Storage<T> for VecStorage<T> {

    open spec fn spec_contains(&self, guid: usize) -> bool {
        self@.contains_key(guid)
    }

    open spec fn storage_wf(&self) -> bool {
        self.wf()
    }

    open spec fn component(&self, guid: usize) -> &T {
        &self@[guid]
    }

    /// An entity whose component is stored already cannot get a second one.
    open spec fn insert_ok(&self, guid: usize) -> bool {
        guid < usize::MAX && !self@.contains_key(guid)
    }

    open spec fn keeps_apart() -> bool {
        true
    }

    open spec fn stored(&self, guid: usize, t: T) -> bool {
        self@.contains_key(guid) && self@[guid] == t
    }

    fn new() -> (r: VecStorage<T>)
        ensures
            r@ == Map::<usize, T>::empty(),
            r.ids() == Seq::<usize>::empty(),
    {
        let r = VecStorage { storage: Vec::new(), ids: Vec::new() };
        assert(r@ =~= Map::<usize, T>::empty());
        r
    }

    fn with_capacity(capacity: usize) -> (r: VecStorage<T>)
        ensures
            r@ == Map::<usize, T>::empty(),
            r.ids() == Seq::<usize>::empty(),
    {
        let r = VecStorage { storage: Vec::with_capacity(capacity), ids: Vec::with_capacity(capacity) };
        assert(r@ =~= Map::<usize, T>::empty());
        r
    }

    /// Stores the component and records the entity last.
    fn insert(&mut self, guid: usize, t: T)
        ensures
            final(self)@ == old(self)@.insert(guid, t),
            final(self).ids() == old(self).ids().push(guid),
    {
        while self.storage.len() < guid + 1
            invariant
                self.wf(),
                self@ == old(self)@,
                self.ids() == old(self).ids(),
                guid < usize::MAX,
                !self@.contains_key(guid),
            decreases guid + 1 - self.storage@.len(),
        {
            let ghost before = self.storage@;
            self.storage.push(None);
            proof {
                assert forall|i: int| 0 <= i < self.ids@.len() implies #[trigger] self.ids@[i] < self.storage@.len()
                    && self.storage@[self.ids@[i] as int] is Some by {
                    assert(before[self.ids@[i] as int] is Some);
                }
                assert forall|g: usize| g < self.storage@.len() && #[trigger] self.storage@[g as int] is Some implies self.ids@.contains(
                    g,
                ) by {
                    if g < before.len() {
                        assert(before[g as int] is Some);
                    }
                }
                assert(self@ =~= old(self)@);
            }
        }
        let ghost before = self.storage@;
        self.storage.set(guid, Some(t));
        self.ids.push(guid);
        proof {
            assert forall|i: int| 0 <= i < self.ids@.len() implies #[trigger] self.ids@[i] < self.storage@.len()
                && self.storage@[self.ids@[i] as int] is Some by {
                if i < self.ids@.len() - 1 {
                    assert(old(self).ids@[i] == self.ids@[i]);
                    assert(before[self.ids@[i] as int] is Some);
                }
            }
            assert forall|g: usize| g < self.storage@.len() && #[trigger] self.storage@[g as int] is Some implies self.ids@.contains(
                g,
            ) by {
                if g != guid {
                    assert(before[g as int] is Some);
                    let j = choose|j: int| 0 <= j < old(self).ids@.len() && old(self).ids@[j] == g;
                    assert(self.ids@[j] == g);
                } else {
                    assert(self.ids@[self.ids@.len() - 1] == guid);
                }
            }
            assert forall|g: usize| #[trigger] self.ids@.contains(g) <==> (old(self).ids@.contains(g) || g == guid) by {
                if self.ids@.contains(g) {
                    let j = choose|j: int| 0 <= j < self.ids@.len() && self.ids@[j] == g;
                    if j < old(self).ids@.len() {
                        assert(old(self).ids@[j] == g);
                    }
                }
                if old(self).ids@.contains(g) {
                    let j = choose|j: int| 0 <= j < old(self).ids@.len() && old(self).ids@[j] == g;
                    assert(self.ids@[j] == g);
                }
                if g == guid {
                    assert(self.ids@[self.ids@.len() - 1] == g);
                }
            }
            assert forall|g: usize| #[trigger] old(self)@.contains_key(g) implies self.storage@[g as int] == before[g as int] by {
                assert(g != guid);
            }
            assert(self@ =~= old(self)@.insert(guid, t));
        }
    }

    /// Drops the component and the entity's place in the order.
    fn remove(&mut self, guid: usize)
        ensures
            final(self)@ == old(self)@.remove(guid),
            final(self).ids() == old(self).ids().remove(old(self).ids().index_of(guid)),
    {
        proof {
            let j = choose|j: int| 0 <= j < self.ids@.len() && self.ids@[j] == guid;
            assert(self.ids@[j] < self.storage@.len());
        }
        let ghost before = self.storage@;
        self.storage.set(guid, None);
        let mut pos: usize = 0;
        let len = self.ids.len();
        while self.ids[pos] != guid
            invariant
                0 <= pos < self.ids@.len(),
                len == self.ids@.len(),
                self.ids@ == old(self).ids@,
                self.ids@.contains(guid),
                forall|j: int| 0 <= j < pos ==> self.ids@[j] != guid,
            decreases self.ids@.len() - pos,
        {
            pos = pos + 1;
            proof {
                if pos == self.ids@.len() {
                    let j = choose|j: int| 0 <= j < self.ids@.len() && self.ids@[j] == guid;
                    assert(self.ids@[j] != guid);
                }
            }
        }
        proof {
            assert(self.ids@.index_of(guid) == pos) by {
                let j = self.ids@.index_of(guid);
                assert(self.ids@.contains(guid));
                assert(0 <= j < self.ids@.len() && self.ids@[j] == guid);
                assert(self.ids@.no_duplicates());
            }
        }
        self.ids.remove(pos);
        proof {
            let oi = old(self).ids@;
            crate::storage::lemma_remove_no_dup_usize(oi, pos as int);
            assert forall|i: int| 0 <= i < self.ids@.len() implies #[trigger] self.ids@[i] < self.storage@.len()
                && self.storage@[self.ids@[i] as int] is Some by {
                let i2 = if i < pos { i } else { i + 1 };
                assert(self.ids@[i] == oi[i2]);
                assert(oi[i2] != guid);
                assert(before[oi[i2] as int] is Some);
            }
            assert forall|g: usize| g < self.storage@.len() && #[trigger] self.storage@[g as int] is Some implies self.ids@.contains(
                g,
            ) by {
                assert(g != guid);
                assert(before[g as int] is Some);
                assert(oi.contains(g));
                assert(oi[pos as int] == guid);
                assert(oi.remove(pos as int).contains(g));
            }
            assert forall|g: usize| #[trigger] old(self)@.contains_key(g) && g != guid implies self.storage@[g as int] == before[g as int] by {
            }
            assert(self@ =~= old(self)@.remove(guid));
        }
    }

    fn contains(&self, guid: usize) -> (r: bool) {
        let mut i: usize = 0;
        while i < self.ids.len()
            invariant
                0 <= i <= self.ids@.len(),
                forall|j: int| 0 <= j < i ==> self.ids@[j] != guid,
            decreases self.ids@.len() - i,
        {
            if self.ids[i] == guid {
                return true;
            }
            i = i + 1;
        }
        false
    }

    fn can_insert(&self, guid: usize) -> (r: bool) {
        guid < usize::MAX && !Storage::contains(self, guid)
    }

    fn get_for_ptr(&self, guid: usize) -> (r: &T)
        ensures
            *r == self@[guid],
    {
        self.get(guid)
    }

    fn get_for_ptr_mut(&mut self, guid: usize) -> (r: &mut T) {
        self.get_mut(guid)
    }
}

} // verus!
