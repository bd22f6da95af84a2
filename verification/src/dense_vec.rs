use vstd::prelude::*;
use crate::storage::Storage;

verus! {

/// Marks a key of the sparse table that holds no value.
pub const EMPTY_SLOT: usize = usize::MAX;

/// A map from small integer keys to values, kept as a packed array of
/// values (in insertion order, with removals filled from the back), the key
/// of each packed value, and a sparse table from key to packed position.
pub struct DenseVec<T> {
    storage: Vec<T>,
    packed: Vec<usize>,
    sparse: Vec<usize>,
}

impl<T> DenseVec<T> {
    /// The map from keys to values.
    pub closed spec fn view(&self) -> Map<usize, T> {
        Map::new(
            |k: usize| k < self.sparse@.len() && self.sparse@[k as int] != EMPTY_SLOT,
            |k: usize| self.storage@[self.sparse@[k as int] as int],
        )
    }

    /// The keys, in the order in which their values are packed.
    pub closed spec fn dense_keys(&self) -> Seq<usize> {
        self.packed@
    }

    /// The values, packed.
    pub closed spec fn dense_values(&self) -> Seq<T> {
        self.storage@
    }

    /// Where the value of key `k` is packed.
    pub closed spec fn position(&self, k: usize) -> int {
        self.sparse@[k as int] as int
    }

    /// One past the largest key that was ever stored.
    pub closed spec fn key_bound(&self) -> nat {
        self.sparse@.len()
    }

    pub closed spec fn wf(&self) -> bool {
        &&& self.storage@.len() == self.packed@.len()
        &&& self.packed@.len() < EMPTY_SLOT
        &&& forall|i: int|
            #![trigger self.packed@[i]]
            0 <= i < self.packed@.len() ==> {
                &&& self.packed@[i] < self.sparse@.len()
                &&& self.sparse@[self.packed@[i] as int] == i
            }
        &&& forall|k: int|
            #![trigger self.sparse@[k]]
            0 <= k < self.sparse@.len() && self.sparse@[k] != EMPTY_SLOT ==> {
                &&& self.sparse@[k] < self.packed@.len()
                &&& self.packed@[self.sparse@[k] as int] == k
            }
    }

    /// How the packed arrays relate to the map.
    pub proof fn lemma_layout(&self)
        requires
            self.wf(),
        ensures
            self.dense_keys().len() == self.dense_values().len(),
            self.dense_keys().no_duplicates(),
            forall|i: int|
                #![trigger self.dense_keys()[i]]
                0 <= i < self.dense_keys().len() ==> self@.contains_key(self.dense_keys()[i])
                    && self@[self.dense_keys()[i]] == self.dense_values()[i]
                    && self.position(self.dense_keys()[i]) == i,
            forall|k: usize|
                #![trigger self@.contains_key(k)]
                self@.contains_key(k) ==> 0 <= self.position(k) < self.dense_keys().len()
                    && self.dense_keys()[self.position(k)] == k,
            forall|k: usize| #![trigger self@.contains_key(k)] self@.contains_key(k) ==> k < self.key_bound(),
            self@.dom().finite(),
            self@.dom().len() == self.dense_keys().len(),
    {
        let keys = self.packed@;
        assert forall|i: int, j: int|
            0 <= i < keys.len() && 0 <= j < keys.len() && i != j implies keys[i] != keys[j] by {
            assert(self.sparse@[keys[i] as int] == i);
            assert(self.sparse@[keys[j] as int] == j);
        }
        assert forall|k: usize| #[trigger] self@.dom().contains(k) implies keys.to_set().contains(k) by {
            assert(keys[self.sparse@[k as int] as int] == k);
        }
        assert forall|k: usize| #[trigger] keys.to_set().contains(k) implies self@.dom().contains(k) by {
            assert(keys.contains(k));
            let i = choose|i: int| 0 <= i < keys.len() && keys[i] == k;
            assert(self.packed@[i] == k);
            assert(self.sparse@[k as int] == i);
        }
        assert(self@.dom() =~= keys.to_set());
        keys.unique_seq_to_set();
    }

    pub fn new() -> (r: DenseVec<T>)
        ensures
            r.wf(),
            r@ == Map::<usize, T>::empty(),
            r.dense_keys() == Seq::<usize>::empty(),
            r.dense_values() == Seq::<T>::empty(),
    {
        let r = DenseVec { storage: Vec::new(), packed: Vec::new(), sparse: Vec::new() };
        assert(r@ =~= Map::<usize, T>::empty());
        r
    }

    pub fn with_capacity(capacity: usize) -> (r: DenseVec<T>)
        ensures
            r.wf(),
            r@ == Map::<usize, T>::empty(),
            r.dense_keys() == Seq::<usize>::empty(),
            r.dense_values() == Seq::<T>::empty(),
    {
        let r = DenseVec {
            storage: Vec::with_capacity(capacity),
            packed: Vec::with_capacity(capacity),
            sparse: Vec::with_capacity(capacity),
        };
        assert(r@ =~= Map::<usize, T>::empty());
        r
    }

    pub fn len(&self) -> (r: usize)
        requires
            self.wf(),
        ensures
            r == self.dense_values().len(),
            r == self@.dom().len(),
    {
        proof {
            self.lemma_layout();
        }
        self.storage.len()
    }

    pub fn contains_key(&self, k: usize) -> (r: bool)
        requires
            self.wf(),
        ensures
            r == self@.contains_key(k),
    {
        k < self.sparse.len() && self.sparse[k] != EMPTY_SLOT
    }

    pub fn get(&self, k: usize) -> (r: Option<&T>)
        requires
            self.wf(),
        ensures
            r == (if self@.contains_key(k) {
                Some(&self@[k])
            } else {
                None
            }),
    {
        if k < self.sparse.len() && self.sparse[k] != EMPTY_SLOT {
            Some(&self.storage[self.sparse[k]])
        } else {
            None
        }
    }

    /// The value of a key that is known to be present.
    pub fn get_unchecked(&self, k: usize) -> (r: &T)
        requires
            self.wf(),
            self@.contains_key(k),
        ensures
            *r == self@[k],
    {
        &self.storage[self.sparse[k]]
    }

    /// Mutable access to the value of a key that is known to be present.
    pub fn get_unchecked_mut(&mut self, k: usize) -> (r: &mut T)
        requires
            old(self).wf(),
            old(self)@.contains_key(k),
        ensures
            *r == old(self)@[k],
            final(self).wf(),
            final(self)@ == old(self)@.insert(k, *final(r)),
            final(self).dense_keys() == old(self).dense_keys(),
            final(self).dense_values() == old(self).dense_values().update(
                old(self).position(k),
                *final(r),
            ),
            final(self).dense_values().len() == old(self).dense_values().len(),
            final(self).key_bound() == old(self).key_bound(),
            forall|j: usize| final(self).position(j) == old(self).position(j),
    {
        let idx = self.sparse[k];
        assert(self.storage@.len() == self.packed@.len());
        &mut self.storage[idx]
    }

    /// Stores `t` under `k`. A value already there is replaced in place and
    /// handed back; a new key is packed at the end.
    pub fn insert(&mut self, k: usize, t: T) -> (r: Option<T>)
        requires
            old(self).wf(),
            k < usize::MAX,
            old(self).dense_values().len() + 1 < usize::MAX,
        ensures
            final(self).wf(),
            final(self)@ == old(self)@.insert(k, t),
            old(self)@.contains_key(k) ==> {
                &&& r == Some(old(self)@[k])
                &&& final(self).dense_keys() == old(self).dense_keys()
                &&& final(self).dense_values() == old(self).dense_values().update(
                    old(self).position(k),
                    t,
                )
                &&& final(self).key_bound() == old(self).key_bound()
            },
            !old(self)@.contains_key(k) ==> {
                &&& r is None
                &&& final(self).dense_keys() == old(self).dense_keys().push(k)
                &&& final(self).dense_values() == old(self).dense_values().push(t)
                &&& final(self).key_bound() == if k < old(self).key_bound() {
                    old(self).key_bound()
                } else {
                    (k + 1) as nat
                }
            },
    {
        if self.sparse.len() < k + 1 {
            let id = self.storage.len();
            self.storage.push(t);
            self.packed.push(k);
            self.sparse.resize(k + 1, EMPTY_SLOT);
            self.sparse.set(k, id);
            proof {
                assert forall|i: int| 0 <= i < self.packed@.len() implies #[trigger] self.packed@[i]
                    < self.sparse@.len() && self.sparse@[self.packed@[i] as int] == i by {
                    if i < id {
                        assert(old(self).packed@[i] == self.packed@[i]);
                    }
                }
                assert forall|j: int|
                    0 <= j < self.sparse@.len() && #[trigger] self.sparse@[j] != EMPTY_SLOT implies self.sparse@[j]
                        < self.packed@.len() && self.packed@[self.sparse@[j] as int] == j by {
                    if j < old(self).sparse@.len() {
                        assert(old(self).sparse@[j] == self.sparse@[j]);
                    }
                }
                assert forall|j: usize| #[trigger] self@.contains_key(j) && j != k implies old(self)@.contains_key(j)
                    && self@[j] == old(self)@[j] by {
                    assert(j < old(self).sparse@.len());
                    assert(old(self).sparse@[j as int] == self.sparse@[j as int]);
                }
                assert forall|j: usize| #[trigger] old(self)@.contains_key(j) implies self@.contains_key(j) by {
                    assert(old(self).sparse@[j as int] == self.sparse@[j as int]);
                }
                assert(self.sparse@[k as int] == id);
                assert(self@.contains_key(k));
                assert(self@[k] == t);
                assert(self@ =~= old(self)@.insert(k, t));
            }
            None
        } else if self.sparse[k] == EMPTY_SLOT {
            let id = self.storage.len();
            self.storage.push(t);
            self.packed.push(k);
            self.sparse.set(k, id);
            proof {
                assert forall|i: int| 0 <= i < self.packed@.len() implies #[trigger] self.packed@[i]
                    < self.sparse@.len() && self.sparse@[self.packed@[i] as int] == i by {
                    if i < id {
                        assert(old(self).packed@[i] == self.packed@[i]);
                    }
                }
                assert forall|j: usize| #[trigger] self@.contains_key(j) && j != k implies old(self)@.contains_key(j)
                    && self@[j] == old(self)@[j] by {
                    assert(old(self).sparse@[j as int] == self.sparse@[j as int]);
                }
                assert(self.sparse@[k as int] == id);
                assert(self@.contains_key(k));
                assert(self@[k] == t);
                assert(self@ =~= old(self)@.insert(k, t));
            }
            None
        } else {
            let idx = self.sparse[k];
            let mut old_value = t;
            std::mem::swap(&mut self.storage[idx], &mut old_value);
            proof {
                assert(self@ =~= old(self)@.insert(k, t));
            }
            Some(old_value)
        }
    }

    /// Takes the value of `k` out. The last packed value moves into the
    /// hole it leaves.
    pub fn remove(&mut self, k: usize) -> (r: Option<T>)
        requires
            old(self).wf(),
        ensures
            final(self).wf(),
            final(self)@ == old(self)@.remove(k),
            final(self).key_bound() == old(self).key_bound(),
            old(self)@.contains_key(k) ==> {
                let i = old(self).position(k);
                &&& r == Some(old(self)@[k])
                &&& 0 <= i < old(self).dense_keys().len()
                &&& old(self).dense_keys()[i] == k
                &&& final(self).dense_keys() == old(self).dense_keys().update(
                    i,
                    old(self).dense_keys().last(),
                ).drop_last()
                &&& final(self).dense_values() == old(self).dense_values().update(
                    i,
                    old(self).dense_values().last(),
                ).drop_last()
            },
            !old(self)@.contains_key(k) ==> {
                &&& r is None
                &&& final(self).dense_keys() == old(self).dense_keys()
                &&& final(self).dense_values() == old(self).dense_values()
            },
    {
        if k >= self.sparse.len() {
            assert(self@ =~= old(self)@.remove(k));
            return None;
        }
        let idx = self.sparse[k];
        if idx == EMPTY_SLOT {
            assert(self@ =~= old(self)@.remove(k));
            return None;
        }
        let last = self.packed.len() - 1;
        let back = self.packed[last];
        self.sparse.set(k, EMPTY_SLOT);
        if back != k {
            self.sparse.set(back, idx);
        }
        self.packed.swap_remove(idx);
        let value = self.storage.swap_remove(idx);
        proof {
            let op = old(self).packed@;
            let os = old(self).sparse@;
            assert forall|i: int| 0 <= i < self.packed@.len() implies #[trigger] self.packed@[i]
                < self.sparse@.len() && self.sparse@[self.packed@[i] as int] == i by {
                assert(op[i] != k || i == idx);
                if i == idx {
                    assert(self.packed@[i] == back);
                } else {
                    assert(self.packed@[i] == op[i]);
                    assert(os[op[i] as int] == i);
                }
            }
            assert forall|j: int|
                0 <= j < self.sparse@.len() && #[trigger] self.sparse@[j] != EMPTY_SLOT implies self.sparse@[j]
                    < self.packed@.len() && self.packed@[self.sparse@[j] as int] == j by {
                if j == back {
                    assert(self.sparse@[j] == idx);
                } else {
                    assert(self.sparse@[j] == os[j]);
                    assert(os[j] != EMPTY_SLOT);
                    assert(op[os[j] as int] == j);
                    assert(os[j] != last);
                }
            }
            assert forall|j: usize| #[trigger] self@.contains_key(j) implies old(self)@.contains_key(j)
                && self@[j] == old(self)@[j] by {
                if j == back {
                    assert(op[last as int] == back);
                } else {
                    assert(self.sparse@[j as int] == os[j as int]);
                }
            }
            assert(self@ =~= old(self)@.remove(k));
        }
        Some(value)
    }

    /// The values, in packed order.
    pub fn values(&self) -> (r: &[T])
        ensures
            r@ == self.dense_values(),
    {
        self.storage.as_slice()
    }

    /// The values, in packed order, taking the storage apart.
    pub fn into_values(self) -> (r: Vec<T>)
        ensures
            r@ == self.dense_values(),
    {
        self.storage
    }

    /// The keys, in packed order.
    pub fn keys(&self) -> (r: &[usize])
        ensures
            r@ == self.dense_keys(),
    {
        self.packed.as_slice()
    }
}

impl<T> Storage<T> for DenseVec<T> {

    open spec fn spec_contains(&self, guid: usize) -> bool {
        self@.contains_key(guid)
    }

    open spec fn storage_wf(&self) -> bool {
        self.wf()
    }

    open spec fn component(&self, guid: usize) -> &T {
        &self@[guid]
    }

    open spec fn insert_ok(&self, guid: usize) -> bool {
        guid < usize::MAX && self.dense_values().len() + 1 < usize::MAX
    }

    open spec fn keeps_apart() -> bool {
        true
    }

    open spec fn stored(&self, guid: usize, t: T) -> bool {
        self@.contains_key(guid) && self@[guid] == t
    }

    fn new() -> (r: DenseVec<T>) {
        DenseVec::new()
    }

    fn with_capacity(capacity: usize) -> (r: DenseVec<T>) {
        DenseVec::with_capacity(capacity)
    }

    /// Stores the component, replacing one that was there.
    fn insert(&mut self, guid: usize, t: T)
        ensures
            final(self)@ == old(self)@.insert(guid, t),
    {
        let _ = DenseVec::insert(self, guid, t);
    }

    fn remove(&mut self, guid: usize)
        ensures
            final(self)@ == old(self)@.remove(guid),
    {
        let _ = DenseVec::remove(self, guid);
    }

    fn contains(&self, guid: usize) -> (r: bool) {
        self.contains_key(guid)
    }

    fn can_insert(&self, guid: usize) -> (r: bool) {
        let n = self.len();
        guid < usize::MAX && n < usize::MAX - 1
    }

    fn get_for_ptr(&self, guid: usize) -> (r: &T)
        ensures
            *r == self@[guid],
    {
        self.get_unchecked(guid)
    }

    fn get_for_ptr_mut(&mut self, guid: usize) -> (r: &mut T) {
        self.get_unchecked_mut(guid)
    }
}

} // verus!
