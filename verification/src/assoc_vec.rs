use vstd::prelude::*;
use crate::storage::Storage;

verus! {

/// Whether the keys of `s` strictly increase.
pub open spec fn keys_sorted<T>(s: Seq<(usize, T)>) -> bool {
    forall|i: int, j: int| 0 <= i < j < s.len() ==> #[trigger] s[i].0 < #[trigger] s[j].0
}

/// Whether `p` is the place of key `g` in the sorted sequence `s`: every key
/// before it is smaller, every key from it on is larger.
pub open spec fn gap_of<T>(s: Seq<(usize, T)>, g: usize, p: int) -> bool {
    &&& 0 <= p <= s.len()
    &&& forall|i: int| 0 <= i < p ==> #[trigger] s[i].0 < g
    &&& forall|i: int| p <= i < s.len() ==> #[trigger] s[i].0 > g
}

/// Whether some pair of `s` has key `g`.
pub open spec fn seq_has<T>(s: Seq<(usize, T)>, g: usize) -> bool {
    exists|i: int| 0 <= i < s.len() && #[trigger] s[i].0 == g
}

/// Where the pair with key `g` stands in `s`.
pub open spec fn seq_pos<T>(s: Seq<(usize, T)>, g: usize) -> int {
    choose|i: int| 0 <= i < s.len() && #[trigger] s[i].0 == g
}

/// The map from keys to values that the pairs of `s` describe.
pub open spec fn assoc_view<T>(s: Seq<(usize, T)>) -> Map<usize, T> {
    Map::new(|g: usize| seq_has(s, g), |g: usize| s[seq_pos(s, g)].1)
}

/// In a sorted sequence the pair at `i` is the one of its key.
pub proof fn lemma_seq_pos<T>(s: Seq<(usize, T)>, i: int)
    requires
        keys_sorted(s),
        0 <= i < s.len(),
    ensures
        seq_has(s, s[i].0),
        seq_pos(s, s[i].0) == i,
{
    let g = s[i].0;
    assert(seq_has(s, g));
    let j = seq_pos(s, g);
    if j < i {
        assert(s[j].0 < s[i].0);
    } else if j > i {
        assert(s[i].0 < s[j].0);
    }
}

/// Writing a new value into a pair keeps the keys sorted and changes the
/// value of that key alone.
pub proof fn lemma_update_value<T>(s: Seq<(usize, T)>, i: int, v: T)
    requires
        keys_sorted(s),
        0 <= i < s.len(),
    ensures
        keys_sorted(s.update(i, (s[i].0, v))),
        assoc_view(s.update(i, (s[i].0, v))) == assoc_view(s).insert(s[i].0, v),
        forall|g: usize| #[trigger] seq_has(s.update(i, (s[i].0, v)), g) == seq_has(s, g),
{
    let u = s.update(i, (s[i].0, v));
    assert forall|a: int, b: int| 0 <= a < b < u.len() implies #[trigger] u[a].0 < #[trigger] u[b].0 by {
        assert(u[a].0 == s[a].0 && u[b].0 == s[b].0);
    }
    assert forall|g: usize| #[trigger] seq_has(u, g) == seq_has(s, g) by {
        if seq_has(u, g) {
            let k = choose|k: int| 0 <= k < u.len() && #[trigger] u[k].0 == g;
            assert(s[k].0 == g);
        }
        if seq_has(s, g) {
            let k = choose|k: int| 0 <= k < s.len() && #[trigger] s[k].0 == g;
            assert(u[k].0 == g);
        }
    }
    assert forall|g: usize| seq_has(u, g) implies #[trigger] assoc_view(u)[g] == assoc_view(s).insert(s[i].0, v)[g] by {
        let k = choose|k: int| 0 <= k < u.len() && #[trigger] u[k].0 == g;
        lemma_seq_pos(u, k);
        lemma_seq_pos(s, k);
        if k == i {
        } else {
            assert(s[k].0 != s[i].0) by {
                if k < i {
                    assert(s[k].0 < s[i].0);
                } else {
                    assert(s[i].0 < s[k].0);
                }
            }
        }
    }
    assert(assoc_view(u) =~= assoc_view(s).insert(s[i].0, v));
}

/// The slot of a component that `entry` found.
pub struct OccupiedEntry<'a, T>(pub &'a mut T);

/// The storage and entity for which `entry` found no component.
pub struct VacantEntry<'a, T> {
    pub storage: &'a mut AssocVec<T>,
    pub guid: usize,
}

/// What `entry` found for an entity.
pub enum Entry<'a, T> {
    Occupied(OccupiedEntry<'a, T>),
    Vacant(VacantEntry<'a, T>),
}

/// A storage that keeps `(entity, component)` pairs in a vector sorted by
/// entity.
pub struct AssocVec<T> {
    storage: Vec<(usize, T)>,
}

impl<T> AssocVec<T> {
    /// The pairs, in storage order.
    pub closed spec fn entries(&self) -> Seq<(usize, T)> {
        self.storage@
    }

    pub open spec fn has(&self, g: usize) -> bool {
        seq_has(self.entries(), g)
    }

    /// The components, by entity.
    pub open spec fn view(&self) -> Map<usize, T> {
        assoc_view(self.entries())
    }

    pub open spec fn wf(&self) -> bool {
        keys_sorted(self.entries())
    }

    pub fn new() -> (r: Self)
        ensures
            r.wf(),
            r.entries() == Seq::<(usize, T)>::empty(),
            r@ == Map::<usize, T>::empty(),
    {
        let r = AssocVec { storage: Vec::new() };
        assert(r@ =~= Map::<usize, T>::empty());
        r
    }

    pub fn with_capacity(capacity: usize) -> (r: Self)
        ensures
            r.wf(),
            r.entries() == Seq::<(usize, T)>::empty(),
            r@ == Map::<usize, T>::empty(),
    {
        let r = AssocVec { storage: Vec::with_capacity(capacity) };
        assert(r@ =~= Map::<usize, T>::empty());
        r
    }

    /// Binary search for the pair of `guid`: its position, or the place
    /// where it would go.
    fn search(&self, guid: usize) -> (r: Result<usize, usize>)
        requires
            self.wf(),
        ensures
            match r {
                Ok(i) => i < self.entries().len() && self.entries()[i as int].0 == guid,
                Err(p) => gap_of(self.entries(), guid, p as int),
            },
    {
        let mut lo: usize = 0;
        let mut hi: usize = self.storage.len();
        while lo < hi
            invariant
                self.wf(),
                0 <= lo <= hi <= self.entries().len(),
                forall|i: int| 0 <= i < lo ==> #[trigger] self.entries()[i].0 < guid,
                forall|i: int| hi <= i < self.entries().len() ==> #[trigger] self.entries()[i].0 > guid,
            decreases hi - lo,
        {
            let mid = lo + (hi - lo) / 2;
            let k = self.storage[mid].0;
            if k == guid {
                return Ok(mid);
            } else if k < guid {
                assert forall|i: int| 0 <= i < mid + 1 implies #[trigger] self.entries()[i].0 < guid by {
                    if i < mid {
                        assert(self.entries()[i].0 < self.entries()[mid as int].0);
                    }
                }
                lo = mid + 1;
            } else {
                assert forall|i: int| mid <= i < self.entries().len() implies #[trigger] self.entries()[i].0 > guid by {
                    if i > mid {
                        assert(self.entries()[mid as int].0 < self.entries()[i].0);
                    }
                }
                hi = mid;
            }
        }
        Err(lo)
    }

    /// A key absent from the gap it would fill is absent.
    proof fn lemma_gap_absent(&self, g: usize, p: int)
        requires
            gap_of(self.entries(), g, p),
        ensures
            !self.has(g),
    {
        if self.has(g) {
            let i = choose|i: int| 0 <= i < self.entries().len() && #[trigger] self.entries()[i].0 == g;
            if i < p {
                assert(self.entries()[i].0 < g);
            } else {
                assert(self.entries()[i].0 > g);
            }
        }
    }

    /// Whether entity `guid` has a component here.
    pub fn contains(&self, guid: usize) -> (r: bool)
        requires
            self.wf(),
        ensures
            r == self.has(guid),
    {
        match self.search(guid) {
            Ok(_) => true,
            Err(p) => {
                proof {
                    self.lemma_gap_absent(guid, p as int);
                }
                false
            },
        }
    }

    /// Inserts the component of `guid` in its sorted place.
    pub fn insert(&mut self, guid: usize, t: T)
        requires
            old(self).wf(),
            !old(self).has(guid),
        ensures
            final(self).wf(),
            exists|p: int|
                gap_of(old(self).entries(), guid, p) && final(self).entries() == old(self).entries().insert(
                    p,
                    (guid, t),
                ),
            final(self)@ == old(self)@.insert(guid, t),
    {
        let ghost old_self = *self;
        match self.search(guid) {
            Ok(i) => {
                proof {
                    assert(self.has(self.entries()[i as int].0));
                }
            },
            Err(pos) => {
                let ghost o = self.entries();
                self.storage.insert(pos, (guid, t));
                proof {
                    let s = self.entries();
                    assert forall|i: int, j: int| 0 <= i < j < s.len() implies #[trigger] s[i].0 < #[trigger] s[j].0 by {
                        if j < pos {
                            assert(s[i] == o[i] && s[j] == o[j]);
                        } else if j == pos {
                            assert(s[i] == o[i]);
                        } else if i < pos {
                            assert(s[i] == o[i] && s[j] == o[j - 1]);
                        } else if i == pos {
                            assert(s[j] == o[j - 1]);
                        } else {
                            assert(s[i] == o[i - 1] && s[j] == o[j - 1]);
                        }
                    }
                    assert forall|g: usize| #[trigger] self.has(g) == (g == guid || seq_has(o, g)) by {
                        if self.has(g) {
                            let i = choose|i: int| 0 <= i < s.len() && #[trigger] s[i].0 == g;
                            if i < pos {
                                assert(o[i].0 == g);
                            } else if i > pos {
                                assert(o[i - 1].0 == g);
                            }
                        }
                        if exists|i: int| 0 <= i < o.len() && #[trigger] o[i].0 == g {
                            let i = choose|i: int| 0 <= i < o.len() && #[trigger] o[i].0 == g;
                            if i < pos {
                                assert(s[i].0 == g);
                            } else {
                                assert(s[i + 1].0 == g);
                            }
                        }
                        assert(s[pos as int].0 == guid);
                    }
                    assert forall|g: usize| self.has(g) implies #[trigger] self@[g] == old_self@.insert(guid, t)[g] by {
                        let i = choose|i: int| 0 <= i < s.len() && #[trigger] s[i].0 == g;
                        lemma_seq_pos(s, i);
                        if i < pos {
                            assert(o[i] == s[i]);
                            lemma_seq_pos(o, i);
                        } else if i > pos {
                            assert(o[i - 1] == s[i]);
                            lemma_seq_pos(o, i - 1);
                        }
                    }
                    assert(o == old_self.entries());
                    assert forall|g: usize| #[trigger] self@.dom().contains(g) == old_self@.insert(guid, t).dom().contains(g) by {
                        assert(self@.dom().contains(g) == seq_has(s, g));
                        assert(old_self@.dom().contains(g) == seq_has(o, g));
                        assert(self.has(g) == (g == guid || seq_has(o, g)));
                    }
                    assert(self@.dom() =~= old_self@.insert(guid, t).dom());
                    assert(self@ =~= old_self@.insert(guid, t));
                }
            },
        }
    }

    /// The component of `guid`.
    pub fn get(&self, guid: usize) -> (r: &T)
        requires
            self.wf(),
            self.has(guid),
        ensures
            *r == self@[guid],
    {
        match self.search(guid) {
            Ok(i) => {
                proof {
                    lemma_seq_pos(self.entries(), i as int);
                }
                &self.storage[i].1
            },
            Err(p) => {
                proof {
                    self.lemma_gap_absent(guid, p as int);
                }
                &self.storage[0].1
            },
        }
    }

    /// The component of `guid`, for writing.
    pub fn get_mut(&mut self, guid: usize) -> (r: &mut T)
        requires
            old(self).wf(),
            old(self).has(guid),
        ensures
            *r == old(self)@[guid],
            final(self).wf(),
            final(self)@ == old(self)@.insert(guid, *final(r)),
            final(self).entries().len() == old(self).entries().len(),
            forall|g: usize| #[trigger] final(self).has(g) == old(self).has(g),
    {
        match self.search(guid) {
            Ok(i) => {
                proof {
                    let s = self.entries();
                    lemma_seq_pos(s, i as int);
                    assert forall|q: (usize, T)| q.0 == guid implies keys_sorted(#[trigger] s.update(i as int, q))
                        && assoc_view(s.update(i as int, q)) == assoc_view(s).insert(guid, q.1) && (forall|g: usize|
                        seq_has(s.update(i as int, q), g) == seq_has(s, g)) by {
                        lemma_update_value(s, i as int, q.1);
                        assert(q == (s[i as int].0, q.1));
                    }
                }
                let pair = self.pair_slot(i);
                &mut pair.1
            },
            Err(p) => {
                proof {
                    self.lemma_gap_absent(guid, p as int);
                }
                let pair = self.pair_slot(0);
                &mut pair.1
            },
        }
    }

    fn pair_slot(&mut self, i: usize) -> (r: &mut (usize, T))
        requires
            i < old(self).entries().len(),
        ensures
            *r == old(self).entries()[i as int],
            final(self).entries() == old(self).entries().update(i as int, *final(r)),
    {
        &mut self.storage[i]
    }

    /// Removes the component of `guid`.
    pub fn remove(&mut self, guid: usize)
        requires
            old(self).wf(),
            old(self).has(guid),
        ensures
            final(self).wf(),
            final(self)@ == old(self)@.remove(guid),
            final(self).entries() == old(self).entries().remove(seq_pos(old(self).entries(), guid)),
    {
        let ghost o = self.entries();
        match self.search(guid) {
            Ok(pos) => {
                proof {
                    lemma_seq_pos(o, pos as int);
                }
                self.storage.remove(pos);
                proof {
                    let s = self.entries();
                    assert forall|i: int, j: int| 0 <= i < j < s.len() implies #[trigger] s[i].0 < #[trigger] s[j].0 by {
                        let i2 = if i < pos { i } else { i + 1 };
                        let j2 = if j < pos { j } else { j + 1 };
                        assert(s[i] == o[i2] && s[j] == o[j2]);
                    }
                    assert forall|g: usize| #[trigger] seq_has(s, g) == (seq_has(o, g) && g != guid) by {
                        if seq_has(s, g) {
                            let i = choose|i: int| 0 <= i < s.len() && #[trigger] s[i].0 == g;
                            let i2 = if i < pos { i } else { i + 1 };
                            assert(o[i2].0 == g);
                            assert(i2 != pos);
                            lemma_seq_pos(o, i2);
                        }
                        if seq_has(o, g) && g != guid {
                            let i = choose|i: int| 0 <= i < o.len() && #[trigger] o[i].0 == g;
                            if i < pos {
                                assert(s[i].0 == g);
                            } else {
                                assert(i != pos);
                                assert(s[i - 1].0 == g);
                            }
                        }
                    }
                    assert forall|g: usize| seq_has(s, g) implies #[trigger] assoc_view(s)[g] == assoc_view(o).remove(guid)[g] by {
                        let i = choose|i: int| 0 <= i < s.len() && #[trigger] s[i].0 == g;
                        lemma_seq_pos(s, i);
                        let i2 = if i < pos { i } else { i + 1 };
                        assert(o[i2] == s[i]);
                        lemma_seq_pos(o, i2);
                    }
                    assert(assoc_view(s) =~= assoc_view(o).remove(guid));
                }
            },
            Err(p) => {
                proof {
                    self.lemma_gap_absent(guid, p as int);
                }
            },
        }
    }

    /// The number of stored components.
    pub fn len(&self) -> (r: usize)
        ensures
            r == self.entries().len(),
    {
        self.storage.len()
    }

    /// The `(entity, component)` pairs in entity order.
    pub fn iter(&self) -> (r: &[(usize, T)])
        ensures
            r@ == self.entries(),
    {
        self.storage.as_slice()
    }

    /// The `(entity, component)` pairs, for writing. What is written through
    /// the slice is what the storage holds afterwards.
    pub fn iter_mut(&mut self) -> (r: &mut [(usize, T)])
        ensures
            r@ == old(self).entries(),
            final(self).entries() == final(r)@,
    {
        self.storage.as_mut_slice()
    }

    /// Writing only the components through `iter_mut`, leaving every entity
    /// in its pair, keeps the pairs sorted, the same entities stored and the
    /// same number of pairs.
    pub proof fn lemma_values_written(before: AssocVec<T>, after: AssocVec<T>)
        requires
            before.wf(),
            after.entries().map_values(|p: (usize, T)| p.0) == before.entries().map_values(|p: (usize, T)| p.0),
        ensures
            after.wf(),
            after@.dom() == before@.dom(),
            after.entries().len() == before.entries().len(),
    {
        let o = before.entries();
        let f = after.entries();
        assert(f.len() == f.map_values(|p: (usize, T)| p.0).len());
        assert forall|i: int| 0 <= i < f.len() implies #[trigger] f[i].0 == o[i].0 by {
            assert(f.map_values(|p: (usize, T)| p.0)[i] == o.map_values(|p: (usize, T)| p.0)[i]);
        }
        assert forall|i: int, j: int| 0 <= i < j < f.len() implies #[trigger] f[i].0 < #[trigger] f[j].0 by {
            assert(o[i].0 < o[j].0);
        }
        assert forall|g: usize| #[trigger] seq_has(f, g) <==> seq_has(o, g) by {
            if seq_has(f, g) {
                let i = choose|i: int| 0 <= i < f.len() && #[trigger] f[i].0 == g;
                assert(o[i].0 == g);
            }
            if seq_has(o, g) {
                let i = choose|i: int| 0 <= i < o.len() && #[trigger] o[i].0 == g;
                assert(f[i].0 == g);
            }
        }
        assert(after@.dom() =~= before@.dom());
    }

    /// The number of stored pairs is the number of entities that have a
    /// component: `new` starts it at 0, each `insert` of an entity that had
    /// none adds one and each `remove` takes one away.
    pub proof fn lemma_len_counts_entities(&self)
        requires
            self.wf(),
        ensures
            self@.dom().finite(),
            self.entries().len() == self@.dom().len(),
    {
        let e = self.entries();
        let ks = e.map_values(|p: (usize, T)| p.0);
        assert forall|i: int, j: int| 0 <= i < ks.len() && 0 <= j < ks.len() && i != j implies ks[i] != ks[j] by {
            if i < j {
                assert(e[i].0 < e[j].0);
            } else {
                assert(e[j].0 < e[i].0);
            }
        }
        assert forall|g: usize| #[trigger] self@.dom().contains(g) <==> ks.to_set().contains(g) by {
            if seq_has(e, g) {
                let i = choose|i: int| 0 <= i < e.len() && #[trigger] e[i].0 == g;
                assert(ks[i] == g);
                assert(ks.contains(g));
            }
            if ks.contains(g) {
                let i = choose|i: int| 0 <= i < ks.len() && ks[i] == g;
                assert(e[i].0 == g);
            }
        }
        assert(self@.dom() =~= ks.to_set());
        ks.unique_seq_to_set();
    }
}

impl<T> AssocVec<T> {
    /// Looks up the component of `guid`, for writing or for insertion. An
    /// entity at or past the number of stored components is reported vacant
    /// without a search.
    pub fn entry(&mut self, guid: usize) -> (r: Entry<'_, T>)
        requires
            old(self).wf(),
        ensures
            match r {
                Entry::Occupied(OccupiedEntry(c)) => {
                    &&& guid < old(self).entries().len()
                    &&& old(self).has(guid)
                    &&& *c == old(self)@[guid]
                    &&& final(self).wf()
                    &&& final(self)@ == old(self)@.insert(guid, *final(c))
                },
                Entry::Vacant(v) => {
                    &&& v.guid == guid
                    &&& *v.storage == *old(self)
                    &&& *final(self) == *final(v.storage)
                    &&& (guid < old(self).entries().len() ==> !old(self).has(guid))
                },
            },
    {
        if guid >= self.len() {
            Entry::Vacant(VacantEntry { storage: self, guid })
        } else {
            match self.search(guid) {
                Ok(_) => Entry::Occupied(OccupiedEntry(self.get_mut(guid))),
                Err(p) => {
                    proof {
                        self.lemma_gap_absent(guid, p as int);
                    }
                    Entry::Vacant(VacantEntry { storage: self, guid })
                },
            }
        }
    }
}

impl<'a, T> Entry<'a, T> {
    /// The component that was found, or else `default` inserted for the
    /// entity.
    pub fn or_insert(self, default: T) -> (r: &'a mut T)
        requires
            match self {
                Entry::Occupied(_) => true,
                Entry::Vacant(v) => v.storage.wf() && !v.storage.has(v.guid),
            },
        ensures
            match self {
                Entry::Occupied(OccupiedEntry(c)) => *r == *c && *final(r) == *final(c),
                Entry::Vacant(v) => {
                    &&& *r == default
                    &&& final(v.storage).wf()
                    &&& final(v.storage)@ == v.storage@.insert(v.guid, *final(r))
                },
            },
    {
        match self {
            Entry::Occupied(OccupiedEntry(c)) => c,
            Entry::Vacant(VacantEntry { storage, guid }) => {
                storage.insert(guid, default);
                assert(storage@.dom().contains(guid));
                storage.get_mut(guid)
            },
        }
    }
}

impl<T> Storage<T> for AssocVec<T> {

    open spec fn spec_contains(&self, guid: usize) -> bool {
        self.has(guid)
    }

    open spec fn storage_wf(&self) -> bool {
        self.wf()
    }

    open spec fn component(&self, guid: usize) -> &T {
        &self@[guid]
    }

    /// Inserting a second component for an entity is refused.
    open spec fn insert_ok(&self, guid: usize) -> bool {
        !self.has(guid)
    }

    open spec fn keeps_apart() -> bool {
        true
    }

    open spec fn stored(&self, guid: usize, t: T) -> bool {
        self@.contains_key(guid) && self@[guid] == t
    }

    fn new() -> (r: Self) {
        AssocVec::new()
    }

    fn with_capacity(capacity: usize) -> (r: Self) {
        AssocVec::with_capacity(capacity)
    }

    fn insert(&mut self, guid: usize, t: T) {
        AssocVec::insert(self, guid, t);
        assert(self@.dom().contains(guid));
        proof {
            assert forall|g: usize| g != guid implies #[trigger] self.has(g) == old(self).has(g) && (self.has(g)
                ==> self@[g] == old(self)@[g]) by {
                assert(self@.dom().contains(g) == self.has(g));
                assert(old(self)@.dom().contains(g) == old(self).has(g));
            }
        }
    }

    /// Drops the pair of `guid`; the other pairs keep their order.
    fn remove(&mut self, guid: usize)
        ensures
            final(self)@ == old(self)@.remove(guid),
            final(self).entries() == old(self).entries().remove(seq_pos(old(self).entries(), guid)),
    {
        AssocVec::remove(self, guid);
        proof {
            assert(!self@.dom().contains(guid));
            assert forall|g: usize| g != guid implies #[trigger] self.has(g) == old(self).has(g) && (self.has(g)
                ==> self@[g] == old(self)@[g]) by {
                assert(self@.dom().contains(g) == self.has(g));
                assert(old(self)@.dom().contains(g) == old(self).has(g));
            }
        }
    }

    fn contains(&self, guid: usize) -> (r: bool) {
        AssocVec::contains(self, guid)
    }

    fn can_insert(&self, guid: usize) -> (r: bool) {
        !AssocVec::contains(self, guid)
    }

    fn get_for_ptr(&self, guid: usize) -> (r: &T) {
        AssocVec::get(self, guid)
    }

    fn get_for_ptr_mut(&mut self, guid: usize) -> (r: &mut T) {
        AssocVec::get_mut(self, guid)
    }
}

} // verus!
