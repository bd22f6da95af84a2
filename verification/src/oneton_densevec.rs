use vstd::prelude::*;
use crate::dense_vec::DenseVec;
use crate::storage::{OneToNStorage, Storage};

verus! {

/// Where the components of one entity lie in the shared vector.
#[derive(Clone, Copy)]
struct Group {
    first_index: usize,
    len: usize,
}

/// The ids `a .. b`, in order.
pub open spec fn id_range(a: nat, b: nat) -> Seq<usize> {
    Seq::new((b - a) as nat, |i: int| (a + i) as usize)
}

/// `ids` with the first occurrence of each of `a .. a + k` taken out, in
/// that order.
pub open spec fn without_each(ids: Seq<usize>, a: nat, k: nat) -> Seq<usize>
    decreases k,
{
    if k == 0 {
        ids
    } else {
        let prev = without_each(ids, a, (k - 1) as nat);
        let v = (a + k - 1) as usize;
        if prev.contains(v) {
            prev.remove(prev.index_of_first(v).unwrap())
        } else {
            prev
        }
    }
}

/// A storage of any number of components per entity: the components of an
/// entity sit next to each other in one vector, and a dense index records
/// where each entity's run starts and how long it is.
pub struct DenseOneToNVec<T> {
    vec: Vec<T>,
    index: DenseVec<Group>,
    ids: Vec<usize>,
}

impl<T> DenseOneToNVec<T> {
    /// All stored components, in vector order.
    pub closed spec fn elems(&self) -> Seq<T> {
        self.vec@
    }

    /// The run of each entity: its start in the vector and its length.
    pub closed spec fn groups(&self) -> Map<usize, (usize, usize)> {
        self.index@.map_values(|g: Group| (g.first_index, g.len))
    }

    /// The vector positions recorded as inserted, in insertion order.
    pub closed spec fn ids(&self) -> Seq<usize> {
        self.ids@
    }

    pub closed spec fn wf(&self) -> bool {
        self.index.wf()
    }

    /// Room for one more run in the index.
    pub open spec fn index_room(&self) -> bool {
        self.groups().dom().len() + 2 < usize::MAX
    }

    /// The index holds as many runs as entities have runs.
    proof fn lemma_runs_counted(&self)
        requires
            self.wf(),
        ensures
            self.groups().dom().finite(),
            self.groups().dom().len() == self.index.dense_values().len(),
    {
        self.index.lemma_layout();
        assert(self.groups().dom() =~= self.index@.dom());
    }

    /// The run of `guid`, or an empty run at the end of the vector for an
    /// entity that has none yet.
    pub open spec fn run_of(&self, guid: usize) -> (usize, usize) {
        if self.groups().contains_key(guid) {
            self.groups()[guid]
        } else {
            (self.elems().len() as usize, 0)
        }
    }

    /// Whether the run of `guid` lies within the vector.
    pub open spec fn run_in_bounds(&self, guid: usize) -> bool {
        self.run_of(guid).0 + self.run_of(guid).1 <= self.elems().len()
    }

    /// The components of `guid`.
    pub open spec fn slice_of(&self, guid: usize) -> Seq<T> {
        self.elems().subrange(self.run_of(guid).0 as int, self.run_of(guid).0 + self.run_of(guid).1)
    }

    pub fn new() -> (r: Self)
        ensures
            r.wf(),
            r.index_room(),
            r.elems() == Seq::<T>::empty(),
            r.groups() == Map::<usize, (usize, usize)>::empty(),
            r.ids() == Seq::<usize>::empty(),
    {
        let r = DenseOneToNVec { vec: Vec::new(), index: DenseVec::new(), ids: Vec::new() };
        proof {
            r.index.lemma_layout();
        }
        assert(r.groups() =~= Map::<usize, (usize, usize)>::empty());
        r
    }

    pub fn with_capacity(capacity: usize) -> (r: Self)
        ensures
            r.wf(),
            r.index_room(),
            r.elems() == Seq::<T>::empty(),
            r.groups() == Map::<usize, (usize, usize)>::empty(),
            r.ids() == Seq::<usize>::empty(),
    {
        let r = DenseOneToNVec { vec: Vec::with_capacity(capacity), index: DenseVec::new(), ids: Vec::new() };
        proof {
            r.index.lemma_layout();
        }
        assert(r.groups() =~= Map::<usize, (usize, usize)>::empty());
        r
    }

    /// The run of `guid`, created empty at the end of the vector when the
    /// entity has none.
    fn run_or_new(&mut self, guid: usize) -> (r: Group)
        requires
            old(self).wf(),
            old(self).index_room(),
            guid < usize::MAX,
        ensures
            final(self).wf(),
            final(self).vec == old(self).vec,
            final(self).ids == old(self).ids,
            (r.first_index, r.len) == old(self).run_of(guid),
            final(self).groups() == old(self).groups().insert(guid, old(self).run_of(guid)),
            final(self).index.dense_values().len() + 1 < usize::MAX,
    {
        proof {
            self.index.lemma_layout();
            self.lemma_runs_counted();
        }
        if self.index.contains_key(guid) {
            let g = *self.index.get_unchecked(guid);
            proof {
                assert(self.groups().insert(guid, (g.first_index, g.len)) =~= self.groups());
            }
            g
        } else {
            let g = Group { first_index: self.vec.len(), len: 0 };
            self.index.insert(guid, g);
            assert(self.groups() =~= old(self).groups().insert(guid, old(self).run_of(guid)));
            proof {
                self.index.lemma_layout();
            }
            g
        }
    }

    fn set_run(&mut self, guid: usize, g: Group)
        requires
            old(self).wf(),
            old(self).groups().contains_key(guid),
            guid < usize::MAX,
            old(self).index.dense_values().len() + 1 < usize::MAX,
        ensures
            final(self).wf(),
            final(self).vec == old(self).vec,
            final(self).ids == old(self).ids,
            final(self).groups() == old(self).groups().insert(guid, (g.first_index, g.len)),
            final(self).index.dense_values().len() == old(self).index.dense_values().len(),
    {
        proof {
            self.index.lemma_layout();
        }
        self.index.insert(guid, g);
        assert(self.groups() =~= old(self).groups().insert(guid, (g.first_index, g.len)));
    }

    /// Adds `t` at the end of the run of `guid`, starting a run at the end
    /// of the vector for an entity that has none. The runs of other
    /// entities keep their recorded starts.
    pub fn insert(&mut self, guid: usize, t: T)
        requires
            old(self).wf(),
            old(self).index_room(),
            guid < usize::MAX,
            old(self).run_in_bounds(guid),
            old(self).elems().len() + 1 < usize::MAX,
        ensures
            final(self).wf(),
            final(self).elems() == old(self).elems().insert(
                old(self).run_of(guid).0 + old(self).run_of(guid).1,
                t,
            ),
            final(self).groups() == old(self).groups().insert(
                guid,
                (old(self).run_of(guid).0, (old(self).run_of(guid).1 + 1) as usize),
            ),
            final(self).ids() == old(self).ids().push(old(self).elems().len() as usize),
    {
        let g = self.run_or_new(guid);
        self.vec.insert(g.first_index + g.len, t);
        proof {
            assert(self.groups().contains_key(guid));
            assert(self.index@.contains_key(guid));
        }
        self.set_run(guid, Group { first_index: g.first_index, len: g.len + 1 });
        self.ids.push(self.vec.len() - 1);
    }

    /// Inserts clones of the components of `t` at the end of the run of
    /// `guid` (a new run at the end of the vector for an entity that has
    /// none), and records the positions at the end of the vector as
    /// inserted. The runs of other entities keep their recorded starts.
    pub fn insert_slice(&mut self, guid: usize, t: &[T])
        where T: Clone
        requires
            old(self).wf(),
            old(self).index_room(),
            guid < usize::MAX,
            old(self).run_in_bounds(guid),
            old(self).elems().len() + t@.len() < usize::MAX,
        ensures
            final(self).wf(),
            ({
                let at = old(self).run_of(guid).0 + old(self).run_of(guid).1;
                &&& final(self).elems().len() == old(self).elems().len() + t@.len()
                &&& forall|i: int| 0 <= i < at ==> #[trigger] final(self).elems()[i] == old(self).elems()[i]
                &&& forall|i: int|
                    0 <= i < t@.len() ==> cloned::<T>(t@[i], #[trigger] final(self).elems()[at + i])
                &&& forall|i: int|
                    at <= i < old(self).elems().len() ==> #[trigger] final(self).elems()[i + t@.len()]
                        == old(self).elems()[i]
            }),
            final(self).groups() == old(self).groups().insert(
                guid,
                (old(self).run_of(guid).0, (old(self).run_of(guid).1 + t@.len()) as usize),
            ),
            final(self).ids() == old(self).ids() + id_range(
                old(self).elems().len(),
                old(self).elems().len() + t@.len(),
            ),
    {
        let g = self.run_or_new(guid);
        let prev_len = self.vec.len();
        let at = g.first_index + g.len;
        let ghost o = self.vec@;
        let mut rest = self.vec.split_off(at);
        self.vec.extend_from_slice(t);
        let ghost mid = self.vec@;
        self.vec.append(&mut rest);
        proof {
            assert forall|i: int| 0 <= i < at implies #[trigger] self.vec@[i] == o[i] by {
                assert(mid[i] == o[i]);
            }
            assert forall|i: int| 0 <= i < t@.len() implies cloned::<T>(t@[i], #[trigger] self.vec@[at + i]) by {
                assert(mid[at + i] == self.vec@[at + i]);
            }
            assert forall|i: int| at <= i < o.len() implies #[trigger] self.vec@[i + t@.len()] == o[i] by {
            }
            assert(self.groups().contains_key(guid));
            assert(self.index@.contains_key(guid));
        }
        self.set_run(guid, Group { first_index: g.first_index, len: g.len + t.len() });
        let mut k = prev_len;
        let ghost base = self.ids@;
        let ghost after = self.vec@;
        while k < self.vec.len()
            invariant
                self.wf(),
                self.groups() == old(self).groups().insert(
                    guid,
                    (old(self).run_of(guid).0, (old(self).run_of(guid).1 + t@.len()) as usize),
                ),
                prev_len <= k <= self.vec@.len(),
                self.vec@ == after,
                self.vec@.len() == prev_len + t@.len(),
                self.ids@ == base + id_range(prev_len as nat, k as nat),
            decreases self.vec@.len() - k,
        {
            self.ids.push(k);
            proof {
                assert(id_range(prev_len as nat, k as nat + 1) =~= id_range(prev_len as nat, k as nat).push(k));
            }
            k = k + 1;
        }
    }

    /// Drains the run of `guid` from the vector and takes the first recorded
    /// occurrence of each of its positions out of the recorded positions.
    /// The run stays in the index, and the recorded starts of the runs
    /// after it stay as they were.
    pub fn remove(&mut self, guid: usize)
        requires
            old(self).wf(),
            old(self).groups().contains_key(guid),
            old(self).run_in_bounds(guid),
        ensures
            final(self).wf(),
            final(self).groups() == old(self).groups(),
            final(self).elems() == old(self).elems().subrange(0, old(self).run_of(guid).0 as int)
                + old(self).elems().subrange(
                old(self).run_of(guid).0 + old(self).run_of(guid).1,
                old(self).elems().len() as int,
            ),
            final(self).ids() == without_each(old(self).ids(), old(self).run_of(guid).0 as nat, old(self).run_of(guid).1 as nat),
    {
        let g = *self.index.get_unchecked(guid);
        assert(self.groups()[guid] == (g.first_index, g.len));
        let n = self.vec.len();
        assert(g.first_index + g.len <= n);
        let end = g.first_index + g.len;
        let ghost o = self.vec@;
        let mut tail = self.vec.split_off(end);
        let _drained = self.vec.split_off(g.first_index);
        self.vec.append(&mut tail);
        assert(self.vec@ =~= o.subrange(0, g.first_index as int) + o.subrange(end as int, o.len() as int));
        let ghost base = self.ids@;
        let ghost after = self.vec@;
        let mut i = g.first_index;
        while i < end
            invariant
                self.wf(),
                self.groups() == old(self).groups(),
                self.vec@ == after,
                g.first_index <= i <= end,
                self.ids@ == without_each(base, g.first_index as nat, (i - g.first_index) as nat),
            decreases end - i,
        {
            let ghost prev = self.ids@;
            match self.position_of(i) {
                Some(pos) => {
                    proof {
                        assert(prev.contains(i));
                        prev.index_of_first_ensures(i);
                    }
                    self.ids.remove(pos);
                },
                None => {},
            }
            i = i + 1;
        }
    }

    fn position_of(&self, v: usize) -> (r: Option<usize>)
        ensures
            match r {
                Some(p) => self.ids@.contains(v) && self.ids@.index_of_first(v) == Some(p as int),
                None => !self.ids@.contains(v),
            },
    {
        let mut p: usize = 0;
        while p < self.ids.len()
            invariant
                p <= self.ids@.len(),
                forall|j: int| 0 <= j < p ==> self.ids@[j] != v,
            decreases self.ids@.len() - p,
        {
            if self.ids[p] == v {
                proof {
                    assert(self.ids@.contains(v));
                    self.ids@.index_of_first_ensures(v);
                }
                return Some(p);
            }
            p = p + 1;
        }
        None
    }

    /// The components of `guid`, for writing.
    pub fn get_mut(&mut self, guid: usize) -> (r: &mut [T])
        requires
            old(self).wf(),
            old(self).groups().contains_key(guid),
            old(self).run_in_bounds(guid),
        ensures
            r@ == old(self).slice_of(guid),
            final(self).wf(),
            final(self).groups() == old(self).groups(),
            final(self).ids() == old(self).ids(),
            final(r)@.len() == r@.len() ==> final(self).elems() == old(self).elems().subrange(0, old(self).run_of(guid).0 as int)
                + final(r)@ + old(self).elems().subrange(
                old(self).run_of(guid).0 + old(self).run_of(guid).1,
                old(self).elems().len() as int,
            ),
    {
        let g = *self.index.get_unchecked(guid);
        assert(self.groups()[guid] == (g.first_index, g.len));
        let all = self.vec.as_mut_slice();
        let (_head, rest) = all.split_at_mut(g.first_index);
        let (run, _tail) = rest.split_at_mut(g.len);
        run
    }

    /// The first component of `guid`.
    pub fn get_first(&self, guid: usize) -> (r: &T)
        requires
            self.wf(),
            self.groups().contains_key(guid),
            self.run_in_bounds(guid),
            self.run_of(guid).1 > 0,
        ensures
            *r == self.elems()[self.run_of(guid).0 as int],
    {
        let g = self.index.get_unchecked(guid);
        assert(self.groups()[guid] == (g.first_index, g.len));
        &self.vec[g.first_index]
    }

    /// The first component of `guid`, for writing.
    pub fn get_first_mut(&mut self, guid: usize) -> (r: &mut T)
        requires
            old(self).wf(),
            old(self).groups().contains_key(guid),
            old(self).run_in_bounds(guid),
            old(self).run_of(guid).1 > 0,
        ensures
            *r == old(self).elems()[old(self).run_of(guid).0 as int],
            final(self).wf(),
            final(self).groups() == old(self).groups(),
            final(self).ids() == old(self).ids(),
            final(self).elems() == old(self).elems().update(old(self).run_of(guid).0 as int, *final(r)),
    {
        let g = *self.index.get_unchecked(guid);
        assert(self.groups()[guid] == (g.first_index, g.len));
        &mut self.vec[g.first_index]
    }

    /// Whether `guid` has a run.
    pub fn contains(&self, guid: usize) -> (r: bool)
        requires
            self.wf(),
        ensures
            r == self.groups().contains_key(guid),
    {
        self.index.contains_key(guid)
    }

    /// The components of `guid`.
    pub fn get(&self, guid: usize) -> (r: &[T])
        requires
            self.wf(),
            self.groups().contains_key(guid),
            self.run_in_bounds(guid),
        ensures
            r@ == self.slice_of(guid),
    {
        let g = self.index.get_unchecked(guid);
        assert(self.groups()[guid] == (g.first_index, g.len));
        let elems = self.vec.as_slice();
        let n = elems.len();
        assert(g.first_index + g.len <= n);
        let end = g.first_index + g.len;
        vstd::slice::slice_subrange(elems, g.first_index, end)
    }
}

impl<T> OneToNStorage<T> for DenseOneToNVec<T> {
    fn can_insert_slice(&self, guid: usize, n: usize) -> (r: bool) {
        proof {
            self.lemma_runs_counted();
        }
        let runs = self.index.len();
        let len = self.vec.len();
        if runs < usize::MAX - 2 && guid < usize::MAX && n < usize::MAX - len {
            if self.index.contains_key(guid) {
                let g = self.index.get_unchecked(guid);
                assert(self.groups()[guid] == (g.first_index, g.len));
                g.first_index <= len && g.len <= len - g.first_index
            } else {
                true
            }
        } else {
            false
        }
    }

    open spec fn holds(&self, guid: usize) -> bool {
        self.groups().contains_key(guid) && self.run_in_bounds(guid)
    }

    open spec fn one_to_n_wf(&self) -> bool {
        self.wf()
    }

    open spec fn insert_slice_ok(&self, guid: usize, n: nat) -> bool {
        &&& self.index_room()
        &&& guid < usize::MAX
        &&& self.run_in_bounds(guid)
        &&& self.elems().len() + n < usize::MAX
    }

    open spec fn components(&self, guid: usize) -> Seq<T> {
        self.slice_of(guid)
    }

    fn insert_slice(&mut self, guid: usize, t: &[T])
        where T: Clone
    {
        DenseOneToNVec::insert_slice(self, guid, t);
        proof {
            let s0 = old(self).run_of(guid).0;
            let n0 = old(self).run_of(guid).1;
            assert(self.run_of(guid) == (s0, (n0 + t@.len()) as usize));
            assert forall|i: int| 0 <= i < t@.len() implies cloned::<T>(
                t@[i],
                #[trigger] self.slice_of(guid)[old(self).slice_of(guid).len() + i],
            ) by {
                assert(self.slice_of(guid)[n0 + i] == self.elems()[s0 + n0 + i]);
            }
            assert(self.slice_of(guid).subrange(0, n0 as int) =~= old(self).slice_of(guid));
        }
    }

    fn get_slice(&self, guid: usize) -> (r: &[T]) {
        self.get(guid)
    }
}

/// As a storage of one component per entity, the one-to-many storage
/// answers with the first component of an entity's run.
impl<T> Storage<T> for DenseOneToNVec<T> {

    open spec fn spec_contains(&self, guid: usize) -> bool {
        &&& self.groups().contains_key(guid)
        &&& self.run_in_bounds(guid)
        &&& self.run_of(guid).1 > 0
    }

    open spec fn storage_wf(&self) -> bool {
        self.wf()
    }

    open spec fn component(&self, guid: usize) -> &T {
        &self.elems()[self.run_of(guid).0 as int]
    }

    open spec fn insert_ok(&self, guid: usize) -> bool {
        &&& self.index_room()
        &&& guid < usize::MAX
        &&& self.run_in_bounds(guid)
        &&& self.elems().len() + 1 < usize::MAX
    }

    /// The latest component inserted for `guid` ends its run.
    open spec fn stored(&self, guid: usize, t: T) -> bool {
        self.slice_of(guid).len() > 0 && self.slice_of(guid).last() == t
    }

    /// Growing or draining a run moves the elements behind it while the
    /// other runs keep their recorded starts, and a drained run stays
    /// recorded.
    open spec fn keeps_apart() -> bool {
        false
    }

    fn can_insert(&self, guid: usize) -> (r: bool) {
        proof {
            self.lemma_runs_counted();
        }
        let runs = self.index.len();
        let len = self.vec.len();
        if runs < usize::MAX - 2 && guid < usize::MAX && len < usize::MAX - 1 {
            if self.index.contains_key(guid) {
                let g = self.index.get_unchecked(guid);
                assert(self.groups()[guid] == (g.first_index, g.len));
                g.first_index <= len && g.len <= len - g.first_index
            } else {
                true
            }
        } else {
            false
        }
    }

    fn new() -> (r: Self) {
        DenseOneToNVec::new()
    }

    fn with_capacity(capacity: usize) -> (r: Self) {
        DenseOneToNVec::with_capacity(capacity)
    }

    fn insert(&mut self, guid: usize, t: T) {
        DenseOneToNVec::insert(self, guid, t)
    }

    /// Drains the run of `guid` from the vector; the run stays recorded.
    fn remove(&mut self, guid: usize)
        ensures
            final(self).groups() == old(self).groups(),
            final(self).elems() == old(self).elems().subrange(0, old(self).run_of(guid).0 as int)
                + old(self).elems().subrange(
                old(self).run_of(guid).0 + old(self).run_of(guid).1,
                old(self).elems().len() as int,
            ),
            final(self).ids() == without_each(old(self).ids(), old(self).run_of(guid).0 as nat, old(self).run_of(guid).1 as nat),
    {
        DenseOneToNVec::remove(self, guid)
    }

    fn contains(&self, guid: usize) -> (r: bool) {
        if self.index.contains_key(guid) {
            let g = self.index.get_unchecked(guid);
            assert(self.groups()[guid] == (g.first_index, g.len));
            let n = self.vec.len();
            g.len > 0 && g.first_index <= n && g.len <= n - g.first_index
        } else {
            false
        }
    }

    fn get_for_ptr(&self, guid: usize) -> (r: &T) {
        self.get_first(guid)
    }

    fn get_for_ptr_mut(&mut self, guid: usize) -> (r: &mut T) {
        self.get_first_mut(guid)
    }
}

} // verus!
