use vstd::prelude::*;
use crate::bitmask::{accepts, is_single_bit, Bitmask, MaskType, NextMask};
use crate::idtree::Node;
use crate::storage::{same_others, HierarchicalStorage, OneToNStorage, Storage};

verus! {

/// An entity: a handle on one row of the world's entity table.
#[derive(Clone, Copy, PartialEq, Eq, Debug, Structural)]
pub struct Entity {
    guid: usize,
}

impl Entity {
    pub closed spec fn spec_guid(&self) -> usize {
        self.guid
    }

    /// The entity's identifier: its row in the entity table.
    pub fn guid(&self) -> (r: usize)
        ensures
            r == self.spec_guid(),
    {
        self.guid
    }
}

/// The bit of a component mask at position `k`.
pub open spec fn bit(k: usize) -> usize {
    1usize << k
}

/// The bits below `n` among the first `k` positions that `m` has set,
/// lowest first.
pub open spec fn set_bits_below(m: usize, n: usize, k: nat) -> Seq<usize>
    decreases k,
{
    if k == 0 {
        Seq::empty()
    } else {
        let j = (k - 1) as usize;
        set_bits_below(m, n, (k - 1) as nat) + if bit(j) < n && m & bit(j) == bit(j) {
            seq![bit(j)]
        } else {
            Seq::empty()
        }
    }
}

/// The identifiers of `ids` whose entity mask passes `filter`, in order.
pub open spec fn keep(ids: Seq<usize>, masks: Seq<MaskType>, filter: Bitmask) -> Seq<usize>
    decreases ids.len(),
{
    if ids.len() == 0 {
        Seq::empty()
    } else {
        keep(ids.drop_last(), masks, filter) + if accepts(filter, masks[ids.last() as int]) {
            seq![ids.last()]
        } else {
            Seq::empty()
        }
    }
}

/// The identifiers `0 .. n`, in order.
pub open spec fn all_ids(n: nat) -> Seq<usize> {
    Seq::new(n, |i: int| i as usize)
}

proof fn lemma_xor_bit(x: usize, k: usize, j: usize)
    requires
        k < usize::BITS,
        j < usize::BITS,
    ensures
        j != k ==> (x ^ (1usize << k)) & (1usize << j) == x & (1usize << j),
        x & (1usize << k) == (1usize << k) ==> (x ^ (1usize << k)) & (1usize << k) == 0,
        x & (1usize << k) != (1usize << k) ==> x & (1usize << k) == 0,
{
    assert(x & (1usize << k) != (1usize << k) ==> x & (1usize << k) == 0) by (bit_vector)
        requires
            k < usize::BITS,
    ;
    assert(j != k ==> (x ^ (1usize << k)) & (1usize << j) == x & (1usize << j)) by (bit_vector)
        requires
            k < usize::BITS,
            j < usize::BITS,
    ;
    assert(x & (1usize << k) == (1usize << k) ==> (x ^ (1usize << k)) & (1usize << k) == 0) by (bit_vector)
        requires
            k < usize::BITS,
    ;
}

proof fn lemma_bit_nonzero(j: usize)
    requires
        j < usize::BITS,
    ensures
        bit(j) != 0,
{
    assert((1usize << j) != 0) by (bit_vector)
        requires
            j < usize::BITS,
    ;
}

/// Adding a component to an entity that lacks it and then removing it
/// again gives the entity its mask back: `add_component_to` sets the bits of
/// the component mask and `remove_component_from` toggles them.
pub proof fn lemma_add_then_remove_restores_mask(m: usize, b: usize)
    requires
        m & b == 0,
    ensures
        (m | b) ^ b == m,
{
    assert((m | b) ^ b == m) by (bit_vector)
        requires
            m & b == 0,
    ;
}

/// The table of entities and their component masks, and the generator of
/// the masks of registered component types.
pub struct EntityRegistry {
    entities: Vec<(Entity, MaskType)>,
    next_component_mask: NextMask,
}

impl EntityRegistry {
    /// The component mask of each entity, by identifier.
    pub closed spec fn masks(&self) -> Seq<MaskType> {
        self.entities@.map_values(|p: (Entity, MaskType)| p.1)
    }

    /// The mask that the next registered component type receives.
    pub closed spec fn next_mask(&self) -> usize {
        self.next_component_mask.spec_get()
    }

    pub closed spec fn wf(&self) -> bool {
        &&& self.next_component_mask.wf()
        &&& forall|i: int| 0 <= i < self.entities@.len() ==> #[trigger] self.entities@[i].0.guid == i
    }

    pub fn new() -> (r: Self)
        ensures
            r.wf(),
            r.masks() == Seq::<MaskType>::empty(),
            r.next_mask() == 1,
    {
        let r = EntityRegistry { entities: Vec::new(), next_component_mask: NextMask::new() };
        assert(r.masks() =~= Seq::<MaskType>::empty());
        r
    }

    /// Hands out the mask of a newly registered component type: the next
    /// bit, lowest first.
    pub fn register(&mut self) -> (r: MaskType)
        requires
            old(self).wf(),
            old(self).next_mask() <= isize::MAX,
        ensures
            final(self).wf(),
            r == old(self).next_mask(),
            is_single_bit(r),
            r < final(self).next_mask(),
            final(self).next_mask() == 2 * old(self).next_mask(),
            final(self).masks() == old(self).masks(),
    {
        self.next_component_mask.next()
    }

    /// The mask that the next registered component type receives.
    pub fn next_component_mask(&self) -> (r: MaskType)
        ensures
            r == self.next_mask(),
    {
        self.next_component_mask.get()
    }

    /// The identifier that the next created entity receives.
    pub fn next_guid(&self) -> (r: usize)
        ensures
            r == self.masks().len(),
    {
        self.entities.len()
    }

    /// Adds an entity with component mask `mask` at the end of the table.
    pub fn create_entity(&mut self, mask: MaskType) -> (r: Entity)
        requires
            old(self).wf(),
        ensures
            final(self).wf(),
            r.spec_guid() == old(self).masks().len(),
            final(self).masks() == old(self).masks().push(mask),
            final(self).next_mask() == old(self).next_mask(),
    {
        let e = Entity { guid: self.entities.len() };
        self.entities.push((e, mask));
        assert(self.masks() =~= old(self).masks().push(mask));
        e
    }

    /// The component mask of `entity`.
    pub fn mask_of(&self, entity: &Entity) -> (r: MaskType)
        requires
            entity.spec_guid() < self.masks().len(),
        ensures
            r == self.masks()[entity.spec_guid() as int],
    {
        self.entities[entity.guid].1
    }

    /// The entity table, in identifier order.
    pub fn entities_ref(&self) -> (r: &[(Entity, MaskType)])
        ensures
            r@.len() == self.masks().len(),
            forall|i: int| 0 <= i < r@.len() ==> #[trigger] r@[i].1 == self.masks()[i],
            self.wf() ==> forall|i: int| 0 <= i < r@.len() ==> #[trigger] r@[i].0.spec_guid() == i,
    {
        self.entities.as_slice()
    }

    fn set_mask(&mut self, guid: usize, mask: MaskType)
        requires
            old(self).wf(),
            guid < old(self).masks().len(),
        ensures
            final(self).wf(),
            final(self).masks() == old(self).masks().update(guid as int, mask),
            final(self).next_mask() == old(self).next_mask(),
    {
        let e = self.entities[guid].0;
        self.entities.set(guid, (e, mask));
        assert(self.masks() =~= old(self).masks().update(guid as int, mask));
    }

    /// The entities whose mask passes `filter`, in identifier order.
    pub fn entities_for_mask(&self, filter: Bitmask) -> (r: Vec<usize>)
        ensures
            r@ == keep(all_ids(self.masks().len()), self.masks(), filter),
    {
        let mut out: Vec<usize> = Vec::new();
        let mut i: usize = 0;
        while i < self.entities.len()
            invariant
                i <= self.masks().len(),
                out@ == keep(all_ids(i as nat), self.masks(), filter),
            decreases self.masks().len() - i,
        {
            let ghost before = all_ids(i as nat);
            proof {
                let ids = all_ids(i as nat + 1);
                assert(ids.drop_last() =~= before);
                assert(ids.last() == i);
            }
            if filter.check(self.entities[i].1) {
                out.push(i);
            }
            i = i + 1;
        }
        out
    }

    /// The entities of a hierarchical storage in its hierarchy order, those
    /// whose mask passes `filter`.
    pub fn ordered_entities_for<T, S: HierarchicalStorage<T>>(&self, storage: &mut S, filter: Bitmask) -> (r: Vec<
        usize,
    >)
        requires
            old(storage).storage_wf(),
            forall|g: usize| #[trigger] old(storage).spec_contains(g) ==> g < self.masks().len(),
        ensures
            r@ == keep(old(storage).ordered(), self.masks(), filter),
            final(storage).storage_wf(),
            final(storage).ordered() == old(storage).ordered(),
            forall|g: usize|
                (#[trigger] final(storage).spec_contains(g) == old(storage).spec_contains(g))
                    && (final(storage).spec_contains(g) ==> *final(storage).component(g) == *old(storage).component(g)),
    {
        let ids = storage.ordered_ids();
        let mut out: Vec<usize> = Vec::new();
        let mut i: usize = 0;
        while i < ids.len()
            invariant
                i <= ids@.len(),
                forall|k: int| 0 <= k < ids@.len() ==> #[trigger] ids@[k] < self.masks().len(),
                out@ == keep(ids@.take(i as int), self.masks(), filter),
            decreases ids@.len() - i,
        {
            proof {
                let t = ids@.take(i as int + 1);
                assert(t.drop_last() =~= ids@.take(i as int));
                assert(t.last() == ids@[i as int]);
            }
            let g = ids[i];
            assert(g < self.masks().len());
            if filter.check(self.entities[g].1) {
                out.push(g);
            }
            i = i + 1;
        }
        proof {
            assert(ids@.take(ids@.len() as int) =~= ids@);
        }
        out
    }

    /// Stores `component` for `entity` and adds `component_mask` to the
    /// entity's mask.
    pub fn add_component_to<T, S: Storage<T>>(
        &mut self,
        storage: &mut S,
        component_mask: MaskType,
        entity: &Entity,
        component: T,
    )
        requires
            old(self).wf(),
            entity.spec_guid() < old(self).masks().len(),
            old(storage).storage_wf(),
            old(storage).insert_ok(entity.spec_guid()),
        ensures
            final(self).wf(),
            final(self).masks() == old(self).masks().update(
                entity.spec_guid() as int,
                old(self).masks()[entity.spec_guid() as int] | component_mask,
            ),
            final(self).next_mask() == old(self).next_mask(),
            final(storage).storage_wf(),
            final(storage).spec_contains(entity.spec_guid()),
            final(storage).stored(entity.spec_guid(), component),
            !old(storage).spec_contains(entity.spec_guid()) ==> *final(storage).component(entity.spec_guid())
                == component,
            S::keeps_apart() ==> same_others::<T, S>(&*final(storage), &*old(storage), entity.spec_guid()),
    {
        storage.insert(entity.guid, component);
        let m = self.entities[entity.guid].1;
        self.set_mask(entity.guid, m | component_mask);
    }

    /// Stores clones of `components` for `entity` and adds `component_mask`
    /// to the entity's mask.
    pub fn add_slice_component_to<T: Clone, S: OneToNStorage<T>>(
        &mut self,
        storage: &mut S,
        component_mask: MaskType,
        entity: &Entity,
        components: &[T],
    )
        requires
            old(self).wf(),
            entity.spec_guid() < old(self).masks().len(),
            old(storage).one_to_n_wf(),
            old(storage).insert_slice_ok(entity.spec_guid(), components@.len()),
        ensures
            final(self).wf(),
            final(self).masks() == old(self).masks().update(
                entity.spec_guid() as int,
                old(self).masks()[entity.spec_guid() as int] | component_mask,
            ),
            final(self).next_mask() == old(self).next_mask(),
            final(storage).one_to_n_wf(),
            final(storage).holds(entity.spec_guid()),
            final(storage).components(entity.spec_guid()).len() == old(storage).components(entity.spec_guid()).len()
                + components@.len(),
            final(storage).components(entity.spec_guid()).subrange(
                0,
                old(storage).components(entity.spec_guid()).len() as int,
            ) == old(storage).components(entity.spec_guid()),
            forall|i: int|
                0 <= i < components@.len() ==> cloned::<T>(
                    components@[i],
                    #[trigger] final(storage).components(entity.spec_guid())[old(storage).components(
                        entity.spec_guid(),
                    ).len() + i],
                ),
    {
        storage.insert_slice(entity.guid, components);
        let m = self.entities[entity.guid].1;
        self.set_mask(entity.guid, m | component_mask);
    }

    /// Removes the component of `entity` from `storage` and toggles
    /// `component_mask` in the entity's mask.
    pub fn remove_component_from<T, S: Storage<T>>(
        &mut self,
        storage: &mut S,
        component_mask: MaskType,
        entity: &Entity,
    )
        requires
            old(self).wf(),
            entity.spec_guid() < old(self).masks().len(),
            old(storage).storage_wf(),
            old(storage).spec_contains(entity.spec_guid()),
        ensures
            final(self).wf(),
            final(self).masks() == old(self).masks().update(
                entity.spec_guid() as int,
                old(self).masks()[entity.spec_guid() as int] ^ component_mask,
            ),
            final(self).next_mask() == old(self).next_mask(),
            final(storage).storage_wf(),
            S::keeps_apart() ==> !final(storage).spec_contains(entity.spec_guid()),
            S::keeps_apart() ==> same_others::<T, S>(&*final(storage), &*old(storage), entity.spec_guid()),
    {
        storage.remove(entity.guid);
        let m = self.entities[entity.guid].1;
        self.set_mask(entity.guid, m ^ component_mask);
    }

    /// Clears every registered component bit of `entity`'s mask and returns
    /// those bits, lowest first: the component types whose storages must
    /// drop the entity's component.
    pub fn remove_entity(&mut self, entity: &Entity) -> (r: Vec<MaskType>)
        requires
            old(self).wf(),
            entity.spec_guid() < old(self).masks().len(),
        ensures
            final(self).wf(),
            final(self).next_mask() == old(self).next_mask(),
            r@ == set_bits_below(
                old(self).masks()[entity.spec_guid() as int],
                old(self).next_mask(),
                usize::BITS as nat,
            ),
            final(self).masks() == old(self).masks().update(
                entity.spec_guid() as int,
                final(self).masks()[entity.spec_guid() as int],
            ),
            forall|j: usize|
                j < usize::BITS ==> (#[trigger] (final(self).masks()[entity.spec_guid() as int] & bit(j))) == if bit(j)
                    < old(self).next_mask() {
                    0
                } else {
                    old(self).masks()[entity.spec_guid() as int] & bit(j)
                },
            forall|j: usize|
                j < usize::BITS && bit(j) < old(self).next_mask() ==> !accepts(
                    Bitmask::Has(#[trigger] bit(j)),
                    final(self).masks()[entity.spec_guid() as int],
                ),
    {
        let guid = entity.guid;
        let m = self.entities[guid].1;
        let next = self.next_component_mask.get();
        let mut cur = m;
        let mut bits: Vec<MaskType> = Vec::new();
        let mut k: u32 = 0;
        while k < usize::BITS
            invariant
                k <= usize::BITS,
                bits@ == set_bits_below(m, next, k as nat),
                forall|j: usize| j < k ==> (#[trigger] (cur & bit(j))) == if bit(j) < next {
                    0
                } else {
                    m & bit(j)
                },
                forall|j: usize| k <= j < usize::BITS ==> #[trigger] (cur & bit(j)) == m & bit(j),
            decreases usize::BITS - k,
        {
            let b: usize = 1usize << k;
            let ku = k as usize;
            assert(b == bit(ku));
            if b < next && cur & b == b {
                bits.push(b);
                proof {
                    assert forall|j: usize| j < usize::BITS implies #[trigger] ((cur ^ b) & bit(j)) == if j == ku {
                        0
                    } else {
                        cur & bit(j)
                    } by {
                        lemma_xor_bit(cur, ku, j);
                    }
                }
                cur = cur ^ b;
            } else {
                proof {
                    lemma_xor_bit(cur, ku, ku);
                }
            }
            k = k + 1;
        }
        self.set_mask(guid, cur);
        proof {
            assert forall|j: usize| j < usize::BITS && bit(j) < next implies !accepts(
                Bitmask::Has(#[trigger] bit(j)),
                cur,
            ) by {
                lemma_bit_nonzero(j);
            }
        }
        bits
    }
}

/// Drops the component of entity `guid` from `storage` if it holds one: what
/// removing an entity does to each storage of a component type it had.
pub fn drop_component<T, S: Storage<T>>(storage: &mut S, guid: usize)
    requires
        old(storage).storage_wf(),
    ensures
        final(storage).storage_wf(),
        S::keeps_apart() ==> !final(storage).spec_contains(guid),
        S::keeps_apart() ==> same_others::<T, S>(&*final(storage), &*old(storage), guid),
        !old(storage).spec_contains(guid) ==> *final(storage) == *old(storage),
{
    if storage.contains(guid) {
        storage.remove(guid);
    }
}

/// The component of `entity` in `storage`, if it has one.
fn lookup<'s, T, S: Storage<T>>(storage: &'s S, entity: &Entity) -> (r: Option<&'s T>)
    requires
        storage.storage_wf(),
    ensures
        r is Some <==> storage.spec_contains(entity.spec_guid()),
        r matches Some(c) ==> c == storage.component(entity.spec_guid()),
{
    if storage.contains(entity.guid) {
        Some(storage.get_for_ptr(entity.guid))
    } else {
        None
    }
}

/// The component of `entity` in `storage`, if it has one, for writing.
fn lookup_mut<'s, T, S: Storage<T>>(storage: &'s mut S, entity: &Entity) -> (r: Option<&'s mut T>)
    requires
        old(storage).storage_wf(),
    ensures
        r is Some <==> old(storage).spec_contains(entity.spec_guid()),
        match r {
            Some(c) => {
                &&& *c == *old(storage).component(entity.spec_guid())
                &&& final(storage).storage_wf()
                &&& *final(storage).component(entity.spec_guid()) == *final(c)
                &&& forall|g: usize| #[trigger] final(storage).spec_contains(g) == old(storage).spec_contains(g)
                &&& S::keeps_apart() ==> same_others::<T, S>(&*final(storage), &*old(storage), entity.spec_guid())
            },
            None => *final(storage) == *old(storage),
        },
{
    if storage.contains(entity.guid) {
        Some(storage.get_for_ptr_mut(entity.guid))
    } else {
        None
    }
}

/// The tree node of the component of `entity` in `storage`, if it has one.
fn node_lookup<'s, T, S: HierarchicalStorage<T>>(storage: &'s S, entity: &Entity) -> (r: Option<&'s Node<T>>)
    requires
        storage.storage_wf(),
    ensures
        r is Some <==> storage.spec_contains(entity.spec_guid()),
        r matches Some(n) ==> n == storage.tree_node(entity.spec_guid()),
{
    if storage.contains(entity.guid) {
        Some(storage.get_node(entity.guid))
    } else {
        None
    }
}

/// Read access to the entities of a world and to their components.
#[derive(Clone, Copy)]
pub struct Entities<'a> {
    registry: &'a EntityRegistry,
}

impl<'a> Entities<'a> {
    pub closed spec fn registry(&self) -> EntityRegistry {
        *self.registry
    }

    pub fn new(registry: &'a EntityRegistry) -> (r: Self)
        ensures
            r.registry() == *registry,
    {
        Entities { registry }
    }

    /// The entities whose mask passes `filter`, in identifier order.
    pub fn entities_for_mask(&self, filter: Bitmask) -> (r: Vec<usize>)
        ensures
            r@ == keep(all_ids(self.registry().masks().len()), self.registry().masks(), filter),
    {
        self.registry.entities_for_mask(filter)
    }

    /// The component of `entity` in `storage`, if it has one.
    pub fn component_for<'s, T, S: Storage<T>>(&self, storage: &'s S, entity: &Entity) -> (r: Option<&'s T>)
        requires
            storage.storage_wf(),
        ensures
            r is Some <==> storage.spec_contains(entity.spec_guid()),
            r matches Some(c) ==> c == storage.component(entity.spec_guid()),
    {
        lookup(storage, entity)
    }

    /// The component of `entity` in `storage`, if it has one, for writing.
    pub fn component_for_mut<'s, T, S: Storage<T>>(&self, storage: &'s mut S, entity: &Entity) -> (r: Option<
        &'s mut T,
    >)
        requires
            old(storage).storage_wf(),
        ensures
            r is Some <==> old(storage).spec_contains(entity.spec_guid()),
            match r {
                Some(c) => {
                    &&& *c == *old(storage).component(entity.spec_guid())
                    &&& final(storage).storage_wf()
                    &&& *final(storage).component(entity.spec_guid()) == *final(c)
                    &&& forall|g: usize| #[trigger] final(storage).spec_contains(g) == old(storage).spec_contains(g)
                    &&& S::keeps_apart() ==> same_others::<T, S>(&*final(storage), &*old(storage), entity.spec_guid())
                },
                None => *final(storage) == *old(storage),
            },
    {
        lookup_mut(storage, entity)
    }

    /// The tree node of the component of `entity` in a hierarchical
    /// storage, if it has one.
    pub fn tree_node_for<'s, T, S: HierarchicalStorage<T>>(&self, storage: &'s S, entity: &Entity) -> (r: Option<
        &'s Node<T>,
    >)
        requires
            storage.storage_wf(),
        ensures
            r is Some <==> storage.spec_contains(entity.spec_guid()),
            r matches Some(n) ==> n == storage.tree_node(entity.spec_guid()),
    {
        node_lookup(storage, entity)
    }

    /// The component of `entity` in a hierarchical storage, if it has one,
    /// for writing; its place in the hierarchy stays.
    pub fn tree_node_for_mut<'s, T, S: HierarchicalStorage<T>>(&self, storage: &'s mut S, entity: &Entity) -> (r:
        Option<&'s mut T>)
        requires
            old(storage).storage_wf(),
        ensures
            r is Some <==> old(storage).spec_contains(entity.spec_guid()),
            match r {
                Some(c) => {
                    &&& *c == *old(storage).component(entity.spec_guid())
                    &&& final(storage).storage_wf()
                    &&& *final(storage).component(entity.spec_guid()) == *final(c)
                    &&& forall|g: usize| #[trigger] final(storage).spec_contains(g) == old(storage).spec_contains(g)
                    &&& S::keeps_apart() ==> same_others::<T, S>(&*final(storage), &*old(storage), entity.spec_guid())
                },
                None => *final(storage) == *old(storage),
            },
    {
        lookup_mut(storage, entity)
    }
}


/// Read access to the entities of a world and to their components, from
/// the thread that owns the world's thread-local storages.
pub struct EntitiesThreadLocal<'a> {
    registry: &'a EntityRegistry,
}

impl<'a> EntitiesThreadLocal<'a> {
    pub closed spec fn registry(&self) -> EntityRegistry {
        *self.registry
    }

    pub fn new(registry: &'a EntityRegistry) -> (r: Self)
        ensures
            r.registry() == *registry,
    {
        EntitiesThreadLocal { registry }
    }

    /// The entities whose mask passes `filter`, in identifier order.
    pub fn entities_for_mask(&self, filter: Bitmask) -> (r: Vec<usize>)
        ensures
            r@ == keep(all_ids(self.registry().masks().len()), self.registry().masks(), filter),
    {
        self.registry.entities_for_mask(filter)
    }

    /// The component of `entity` in `storage`, if it has one.
    pub fn component_for<'s, T, S: Storage<T>>(&self, storage: &'s S, entity: &Entity) -> (r: Option<&'s T>)
        requires
            storage.storage_wf(),
        ensures
            r is Some <==> storage.spec_contains(entity.spec_guid()),
            r matches Some(c) ==> c == storage.component(entity.spec_guid()),
    {
        lookup(storage, entity)
    }

    /// The component of `entity` in `storage`, if it has one, for writing.
    pub fn component_for_mut<'s, T, S: Storage<T>>(&self, storage: &'s mut S, entity: &Entity) -> (r: Option<
        &'s mut T,
    >)
        requires
            old(storage).storage_wf(),
        ensures
            r is Some <==> old(storage).spec_contains(entity.spec_guid()),
            match r {
                Some(c) => {
                    &&& *c == *old(storage).component(entity.spec_guid())
                    &&& final(storage).storage_wf()
                    &&& *final(storage).component(entity.spec_guid()) == *final(c)
                    &&& forall|g: usize| #[trigger] final(storage).spec_contains(g) == old(storage).spec_contains(g)
                    &&& S::keeps_apart() ==> same_others::<T, S>(&*final(storage), &*old(storage), entity.spec_guid())
                },
                None => *final(storage) == *old(storage),
            },
    {
        lookup_mut(storage, entity)
    }

    /// The tree node of the component of `entity` in a hierarchical
    /// storage, if it has one.
    pub fn tree_node_for<'s, T, S: HierarchicalStorage<T>>(&self, storage: &'s S, entity: &Entity) -> (r: Option<
        &'s Node<T>,
    >)
        requires
            storage.storage_wf(),
        ensures
            r is Some <==> storage.spec_contains(entity.spec_guid()),
            r matches Some(n) ==> n == storage.tree_node(entity.spec_guid()),
    {
        node_lookup(storage, entity)
    }

    /// The component of `entity` in a hierarchical storage, if it has one,
    /// for writing; its place in the hierarchy stays.
    pub fn tree_node_for_mut<'s, T, S: HierarchicalStorage<T>>(&self, storage: &'s mut S, entity: &Entity) -> (r:
        Option<&'s mut T>)
        requires
            old(storage).storage_wf(),
        ensures
            r is Some <==> old(storage).spec_contains(entity.spec_guid()),
            match r {
                Some(c) => {
                    &&& *c == *old(storage).component(entity.spec_guid())
                    &&& final(storage).storage_wf()
                    &&& *final(storage).component(entity.spec_guid()) == *final(c)
                    &&& forall|g: usize| #[trigger] final(storage).spec_contains(g) == old(storage).spec_contains(g)
                    &&& S::keeps_apart() ==> same_others::<T, S>(&*final(storage), &*old(storage), entity.spec_guid())
                },
                None => *final(storage) == *old(storage),
            },
    {
        lookup_mut(storage, entity)
    }
}


/// Access to the entities of a world that may also create, change and
/// remove entities and components.
pub struct EntitiesCreation<'a> {
    pub world: &'a mut EntityRegistry,
}

impl<'a> EntitiesCreation<'a> {
    /// The entity table as it stands.
    pub open spec fn registry(&self) -> EntityRegistry {
        *self.world
    }

    pub fn new(world: &'a mut EntityRegistry) -> (r: Self)
        ensures
            r.registry() == *old(world),
            *final(world) == *final(r.world),
    {
        EntitiesCreation { world }
    }
    /// The component of `entity` in `storage`, if it has one.
    pub fn component_for<'s, T, S: Storage<T>>(&self, storage: &'s S, entity: &Entity) -> (r: Option<&'s T>)
        requires
            storage.storage_wf(),
        ensures
            r is Some <==> storage.spec_contains(entity.spec_guid()),
            r matches Some(c) ==> c == storage.component(entity.spec_guid()),
    {
        lookup(storage, entity)
    }

    /// The component of `entity` in `storage`, if it has one, for writing.
    pub fn component_for_mut<'s, T, S: Storage<T>>(&self, storage: &'s mut S, entity: &Entity) -> (r: Option<
        &'s mut T,
    >)
        requires
            old(storage).storage_wf(),
        ensures
            r is Some <==> old(storage).spec_contains(entity.spec_guid()),
            match r {
                Some(c) => {
                    &&& *c == *old(storage).component(entity.spec_guid())
                    &&& final(storage).storage_wf()
                    &&& *final(storage).component(entity.spec_guid()) == *final(c)
                    &&& forall|g: usize| #[trigger] final(storage).spec_contains(g) == old(storage).spec_contains(g)
                    &&& S::keeps_apart() ==> same_others::<T, S>(&*final(storage), &*old(storage), entity.spec_guid())
                },
                None => *final(storage) == *old(storage),
            },
    {
        lookup_mut(storage, entity)
    }

    /// The tree node of the component of `entity` in a hierarchical
    /// storage, if it has one.
    pub fn tree_node_for<'s, T, S: HierarchicalStorage<T>>(&self, storage: &'s S, entity: &Entity) -> (r: Option<
        &'s Node<T>,
    >)
        requires
            storage.storage_wf(),
        ensures
            r is Some <==> storage.spec_contains(entity.spec_guid()),
            r matches Some(n) ==> n == storage.tree_node(entity.spec_guid()),
    {
        node_lookup(storage, entity)
    }

    /// The component of `entity` in a hierarchical storage, if it has one,
    /// for writing; its place in the hierarchy stays.
    pub fn tree_node_for_mut<'s, T, S: HierarchicalStorage<T>>(&self, storage: &'s mut S, entity: &Entity) -> (r:
        Option<&'s mut T>)
        requires
            old(storage).storage_wf(),
        ensures
            r is Some <==> old(storage).spec_contains(entity.spec_guid()),
            match r {
                Some(c) => {
                    &&& *c == *old(storage).component(entity.spec_guid())
                    &&& final(storage).storage_wf()
                    &&& *final(storage).component(entity.spec_guid()) == *final(c)
                    &&& forall|g: usize| #[trigger] final(storage).spec_contains(g) == old(storage).spec_contains(g)
                    &&& S::keeps_apart() ==> same_others::<T, S>(&*final(storage), &*old(storage), entity.spec_guid())
                },
                None => *final(storage) == *old(storage),
            },
    {
        lookup_mut(storage, entity)
    }

    /// Adds an entity with component mask `mask` at the end of the table.
    pub fn create_entity(&mut self, mask: MaskType) -> (r: Entity)
        requires
            old(self).registry().wf(),
        ensures
            final(self).registry().wf(),
            r.spec_guid() == old(self).registry().masks().len(),
            final(self).registry().masks() == old(self).registry().masks().push(mask),
            final(self).registry().next_mask() == old(self).registry().next_mask(),
    {
        self.world.create_entity(mask)
    }

    /// Stores `component` for `entity` and adds `component_mask` to the
    /// entity's mask.
    pub fn add_component_to<T, S: Storage<T>>(
        &mut self,
        storage: &mut S,
        component_mask: MaskType,
        entity: &Entity,
        component: T,
    )
        requires
            old(self).registry().wf(),
            entity.spec_guid() < old(self).registry().masks().len(),
            old(storage).storage_wf(),
            old(storage).insert_ok(entity.spec_guid()),
        ensures
            final(self).registry().wf(),
            final(self).registry().masks() == old(self).registry().masks().update(
                entity.spec_guid() as int,
                old(self).registry().masks()[entity.spec_guid() as int] | component_mask,
            ),
            final(self).registry().next_mask() == old(self).registry().next_mask(),
            final(storage).storage_wf(),
            final(storage).spec_contains(entity.spec_guid()),
            final(storage).stored(entity.spec_guid(), component),
            !old(storage).spec_contains(entity.spec_guid()) ==> *final(storage).component(entity.spec_guid())
                == component,
            S::keeps_apart() ==> same_others::<T, S>(&*final(storage), &*old(storage), entity.spec_guid()),
    {
        self.world.add_component_to(storage, component_mask, entity, component)
    }

    /// As `add_component_to`, for a storage kept by the world's own thread.
    pub fn add_component_to_thread_local<T, S: Storage<T>>(
        &mut self,
        storage: &mut S,
        component_mask: MaskType,
        entity: &Entity,
        component: T,
    )
        requires
            old(self).registry().wf(),
            entity.spec_guid() < old(self).registry().masks().len(),
            old(storage).storage_wf(),
            old(storage).insert_ok(entity.spec_guid()),
        ensures
            final(self).registry().wf(),
            final(self).registry().masks() == old(self).registry().masks().update(
                entity.spec_guid() as int,
                old(self).registry().masks()[entity.spec_guid() as int] | component_mask,
            ),
            final(self).registry().next_mask() == old(self).registry().next_mask(),
            final(storage).storage_wf(),
            final(storage).spec_contains(entity.spec_guid()),
            final(storage).stored(entity.spec_guid(), component),
            !old(storage).spec_contains(entity.spec_guid()) ==> *final(storage).component(entity.spec_guid())
                == component,
            S::keeps_apart() ==> same_others::<T, S>(&*final(storage), &*old(storage), entity.spec_guid()),
    {
        self.world.add_component_to(storage, component_mask, entity, component)
    }

    /// Stores clones of `components` for `entity` and adds `component_mask`
    /// to the entity's mask.
    pub fn add_slice_component_to<T: Clone, S: OneToNStorage<T>>(
        &mut self,
        storage: &mut S,
        component_mask: MaskType,
        entity: &Entity,
        components: &[T],
    )
        requires
            old(self).registry().wf(),
            entity.spec_guid() < old(self).registry().masks().len(),
            old(storage).one_to_n_wf(),
            old(storage).insert_slice_ok(entity.spec_guid(), components@.len()),
        ensures
            final(self).registry().wf(),
            final(self).registry().masks() == old(self).registry().masks().update(
                entity.spec_guid() as int,
                old(self).registry().masks()[entity.spec_guid() as int] | component_mask,
            ),
            final(self).registry().next_mask() == old(self).registry().next_mask(),
            final(storage).one_to_n_wf(),
            final(storage).holds(entity.spec_guid()),
            final(storage).components(entity.spec_guid()).len() == old(storage).components(entity.spec_guid()).len()
                + components@.len(),
            final(storage).components(entity.spec_guid()).subrange(
                0,
                old(storage).components(entity.spec_guid()).len() as int,
            ) == old(storage).components(entity.spec_guid()),
            forall|i: int|
                0 <= i < components@.len() ==> cloned::<T>(
                    components@[i],
                    #[trigger] final(storage).components(entity.spec_guid())[old(storage).components(
                        entity.spec_guid(),
                    ).len() + i],
                ),
    {
        self.world.add_slice_component_to(storage, component_mask, entity, components)
    }

    /// As `add_slice_component_to`, for a storage kept by the world's own
    /// thread.
    pub fn add_slice_component_to_thread_local<T: Clone, S: OneToNStorage<T>>(
        &mut self,
        storage: &mut S,
        component_mask: MaskType,
        entity: &Entity,
        components: &[T],
    )
        requires
            old(self).registry().wf(),
            entity.spec_guid() < old(self).registry().masks().len(),
            old(storage).one_to_n_wf(),
            old(storage).insert_slice_ok(entity.spec_guid(), components@.len()),
        ensures
            final(self).registry().wf(),
            final(self).registry().masks() == old(self).registry().masks().update(
                entity.spec_guid() as int,
                old(self).registry().masks()[entity.spec_guid() as int] | component_mask,
            ),
            final(self).registry().next_mask() == old(self).registry().next_mask(),
            final(storage).one_to_n_wf(),
            final(storage).holds(entity.spec_guid()),
            final(storage).components(entity.spec_guid()).len() == old(storage).components(entity.spec_guid()).len()
                + components@.len(),
            final(storage).components(entity.spec_guid()).subrange(
                0,
                old(storage).components(entity.spec_guid()).len() as int,
            ) == old(storage).components(entity.spec_guid()),
            forall|i: int|
                0 <= i < components@.len() ==> cloned::<T>(
                    components@[i],
                    #[trigger] final(storage).components(entity.spec_guid())[old(storage).components(
                        entity.spec_guid(),
                    ).len() + i],
                ),
    {
        self.world.add_slice_component_to(storage, component_mask, entity, components)
    }

    /// Removes the component of `entity` from `storage` and toggles
    /// `component_mask` in the entity's mask.
    pub fn remove_component_from<T, S: Storage<T>>(&mut self, storage: &mut S, component_mask: MaskType, entity: &Entity)
        requires
            old(self).registry().wf(),
            entity.spec_guid() < old(self).registry().masks().len(),
            old(storage).storage_wf(),
            old(storage).spec_contains(entity.spec_guid()),
        ensures
            final(self).registry().wf(),
            final(self).registry().masks() == old(self).registry().masks().update(
                entity.spec_guid() as int,
                old(self).registry().masks()[entity.spec_guid() as int] ^ component_mask,
            ),
            final(self).registry().next_mask() == old(self).registry().next_mask(),
            final(storage).storage_wf(),
            S::keeps_apart() ==> !final(storage).spec_contains(entity.spec_guid()),
            S::keeps_apart() ==> same_others::<T, S>(&*final(storage), &*old(storage), entity.spec_guid()),
    {
        self.world.remove_component_from(storage, component_mask, entity)
    }

    /// Clears every registered component bit of `entity`'s mask and returns
    /// those bits, lowest first.
    pub fn remove_entity(&mut self, entity: &Entity) -> (r: Vec<MaskType>)
        requires
            old(self).registry().wf(),
            entity.spec_guid() < old(self).registry().masks().len(),
        ensures
            final(self).registry().wf(),
            final(self).registry().next_mask() == old(self).registry().next_mask(),
            r@ == set_bits_below(
                old(self).registry().masks()[entity.spec_guid() as int],
                old(self).registry().next_mask(),
                usize::BITS as nat,
            ),
            final(self).registry().masks() == old(self).registry().masks().update(
                entity.spec_guid() as int,
                final(self).registry().masks()[entity.spec_guid() as int],
            ),
            forall|j: usize|
                j < usize::BITS ==> (#[trigger] (final(self).registry().masks()[entity.spec_guid() as int] & bit(j)))
                    == if bit(j) < old(self).registry().next_mask() {
                    0
                } else {
                    old(self).registry().masks()[entity.spec_guid() as int] & bit(j)
                },
            forall|j: usize|
                j < usize::BITS && bit(j) < old(self).registry().next_mask() ==> !accepts(
                    Bitmask::Has(#[trigger] bit(j)),
                    final(self).registry().masks()[entity.spec_guid() as int],
                ),
    {
        self.world.remove_entity(entity)
    }
}

} // verus!
