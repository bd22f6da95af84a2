use vstd::prelude::*;
use crate::idtree::{Node, NodeId};

verus! {

/// Whether every entity other than `guid` is held by `a` exactly when it is
/// held by `b`, with the same component.
pub open spec fn same_others<T, S: Storage<T>>(a: &S, b: &S, guid: usize) -> bool {
    forall|g: usize|
        g != guid ==> (#[trigger] a.spec_contains(g) == b.spec_contains(g)) && (a.spec_contains(g)
            ==> *a.component(g) == *b.component(g))
}

/// A container of the components of one type, indexed by entity.
pub trait Storage<T>: Sized {
    /// Whether the storage holds a component for entity `guid`.
    spec fn spec_contains(&self, guid: usize) -> bool;

    /// The storage's internal invariant.
    spec fn storage_wf(&self) -> bool;

    /// Whether a component for `guid` may be inserted now.
    spec fn insert_ok(&self, guid: usize) -> bool;

    /// What a reference to the component of `guid` points at.
    spec fn component(&self, guid: usize) -> &T;

    fn new() -> (r: Self)
        ensures
            r.storage_wf(),
            forall|g: usize| !r.spec_contains(g),
    ;

    fn with_capacity(capacity: usize) -> (r: Self)
        ensures
            r.storage_wf(),
            forall|g: usize| !r.spec_contains(g),
    ;

    /// Whether changing the components of one entity leaves every other
    /// entity held as it was, with the same component, and removing a
    /// component takes the entity out.
    spec fn keeps_apart() -> bool;

    /// Whether `t` is what the storage keeps as the latest component
    /// inserted for `guid`.
    spec fn stored(&self, guid: usize, t: T) -> bool;

    /// Stores `t` for `guid`. An entity that had no component gets `t` as
    /// its component; in a storage that keeps entities apart, the other
    /// entities keep theirs.
    fn insert(&mut self, guid: usize, t: T)
        requires
            old(self).storage_wf(),
            old(self).insert_ok(guid),
        ensures
            final(self).storage_wf(),
            final(self).spec_contains(guid),
            final(self).stored(guid, t),
            !old(self).spec_contains(guid) ==> *final(self).component(guid) == t,
            Self::keeps_apart() ==> forall|g: usize|
                g != guid ==> (#[trigger] final(self).spec_contains(g) == old(self).spec_contains(g))
                    && (final(self).spec_contains(g) ==> *final(self).component(g) == *old(self).component(g)),
    ;

    /// Drops the component of `guid`. In a storage that keeps entities
    /// apart, the entity is then no longer held and the others keep theirs.
    fn remove(&mut self, guid: usize)
        requires
            old(self).storage_wf(),
            old(self).spec_contains(guid),
        ensures
            final(self).storage_wf(),
            Self::keeps_apart() ==> !final(self).spec_contains(guid),
            Self::keeps_apart() ==> forall|g: usize|
                g != guid ==> (#[trigger] final(self).spec_contains(g) == old(self).spec_contains(g))
                    && (final(self).spec_contains(g) ==> *final(self).component(g) == *old(self).component(g)),
    ;

    fn contains(&self, guid: usize) -> (r: bool)
        requires
            self.storage_wf(),
        ensures
            r == self.spec_contains(guid),
    ;

    /// Whether a component for `guid` may be inserted now.
    fn can_insert(&self, guid: usize) -> (r: bool)
        requires
            self.storage_wf(),
        ensures
            r == self.insert_ok(guid),
    ;

    /// The component of `guid`, which must be present.
    fn get_for_ptr(&self, guid: usize) -> (r: &T)
        requires
            self.storage_wf(),
            self.spec_contains(guid),
        ensures
            r == self.component(guid),
    ;

    /// The component of `guid`, which must be present, for writing. What is
    /// written through the reference is the component afterwards.
    fn get_for_ptr_mut(&mut self, guid: usize) -> (r: &mut T)
        requires
            old(self).storage_wf(),
            old(self).spec_contains(guid),
        ensures
            *r == *old(self).component(guid),
            final(self).storage_wf(),
            *final(self).component(guid) == *final(r),
            forall|g: usize| #[trigger] final(self).spec_contains(g) == old(self).spec_contains(g),
            Self::keeps_apart() ==> forall|g: usize|
                g != guid ==> (#[trigger] final(self).spec_contains(g) == old(self).spec_contains(g))
                    && (final(self).spec_contains(g) ==> *final(self).component(g) == *old(self).component(g)),
    ;
}

/// A storage whose components form a hierarchy: a component may be the
/// child of another entity's component.
pub trait HierarchicalStorage<T>: Storage<T> {
    /// Adds the component of `guid` as the last child of that of
    /// `parent_guid`.
    fn insert_child(&mut self, parent_guid: usize, guid: usize, value: T)
        requires
            old(self).storage_wf(),
            old(self).spec_contains(parent_guid),
            old(self).insert_ok(guid),
        ensures
            final(self).storage_wf(),
            final(self).spec_contains(guid),
            final(self).stored(guid, value),
            !old(self).spec_contains(guid) ==> *final(self).component(guid) == value,
            Self::keeps_apart() ==> forall|g: usize|
                g != guid ==> (#[trigger] final(self).spec_contains(g) == old(self).spec_contains(g))
                    && (final(self).spec_contains(g) ==> *final(self).component(g) == *old(self).component(g)),
    ;

    /// The tree node that holds the component of `guid`.
    spec fn tree_node(&self, guid: usize) -> &Node<T>;

    /// The tree node that holds the component of `guid`.
    fn get_node(&self, guid: usize) -> (r: &Node<T>)
        requires
            self.storage_wf(),
            self.spec_contains(guid),
        ensures
            r == self.tree_node(guid),
    ;

    /// The entities in hierarchy order, each before its children.
    spec fn ordered(&self) -> Seq<usize>;

    /// The entities in hierarchy order, each before its children. A storage
    /// may keep the order it answered and answer it again; the components
    /// stay as they are.
    fn ordered_ids(&mut self) -> (r: Vec<usize>)
        requires
            old(self).storage_wf(),
        ensures
            r@ == old(self).ordered(),
            final(self).storage_wf(),
            final(self).ordered() == r@,
            forall|i: int| 0 <= i < r@.len() ==> final(self).spec_contains(#[trigger] r@[i]),
            forall|g: usize|
                (#[trigger] final(self).spec_contains(g) == old(self).spec_contains(g)) && (final(self).spec_contains(g)
                    ==> *final(self).component(g) == *old(self).component(g)),
    ;
}

/// A storage that keeps any number of components per entity.
pub trait OneToNStorage<T> {
    /// Whether the storage holds components for entity `guid`.
    spec fn holds(&self, guid: usize) -> bool;

    /// The storage's internal invariant.
    spec fn one_to_n_wf(&self) -> bool;

    /// Whether `n` components for `guid` may be inserted now.
    spec fn insert_slice_ok(&self, guid: usize, n: nat) -> bool;

    /// The components of `guid`.
    spec fn components(&self, guid: usize) -> Seq<T>;

    /// Adds clones of the components of `t` to those of `guid`.
    fn insert_slice(&mut self, guid: usize, t: &[T])
        where T: Clone
        requires
            old(self).one_to_n_wf(),
            old(self).insert_slice_ok(guid, t@.len()),
        ensures
            final(self).one_to_n_wf(),
            final(self).holds(guid),
            final(self).components(guid).len() == old(self).components(guid).len() + t@.len(),
            final(self).components(guid).subrange(0, old(self).components(guid).len() as int) == old(
                self,
            ).components(guid),
            forall|i: int|
                0 <= i < t@.len() ==> cloned::<T>(
                    t@[i],
                    #[trigger] final(self).components(guid)[old(self).components(guid).len() + i],
                ),
    ;

    /// Whether `n` components for `guid` may be inserted now.
    fn can_insert_slice(&self, guid: usize, n: usize) -> (r: bool)
        requires
            self.one_to_n_wf(),
        ensures
            r == self.insert_slice_ok(guid, n as nat),
    ;

    /// The components of `guid`.
    fn get_slice(&self, guid: usize) -> (r: &[T])
        requires
            self.one_to_n_wf(),
            self.holds(guid),
        ensures
            r@ == self.components(guid),
    ;
}

/// A storage that keeps any number of component trees per entity.
pub trait HierarchicalOneToNStorage<T>: Storage<T> {
    /// Whether `id` names a live node of the storage.
    spec fn has_node(&self, id: NodeId) -> bool;

    /// Whether a new root for `guid` may be added now.
    spec fn root_ok(&self, guid: usize) -> bool;

    /// Whether a new child node may be added now.
    spec fn child_ok(&self) -> bool;

    /// Adds a new root holding `t` to the trees of `guid`.
    fn insert_root(&mut self, guid: usize, t: T) -> (r: NodeId)
        requires
            old(self).storage_wf(),
            old(self).root_ok(guid),
        ensures
            final(self).storage_wf(),
            final(self).spec_contains(guid),
            final(self).has_node(r),
    ;

    /// Adds a node holding `t` as the last child of `parent`.
    fn insert_child(&mut self, parent: NodeId, t: T) -> (r: NodeId)
        requires
            old(self).storage_wf(),
            old(self).has_node(parent),
            old(self).child_ok(),
        ensures
            final(self).storage_wf(),
            final(self).has_node(r),
    ;
}

/// Inserting the component of an entity that had none and then removing it
/// leaves a storage's components as they were: each storage describes
/// `insert` as `view.insert(guid, t)` and `remove` as `view.remove(guid)`.
pub proof fn lemma_insert_then_remove<T>(view: Map<usize, T>, guid: usize, t: T)
    requires
        !view.contains_key(guid),
    ensures
        view.insert(guid, t).remove(guid) == view,
{
    assert(view.insert(guid, t).remove(guid) =~= view);
}

/// Removing one element keeps a sequence free of duplicates, and the
/// removed value is gone.
pub proof fn lemma_remove_no_dup_usize(s: Seq<usize>, k: int)
    requires
        s.no_duplicates(),
        0 <= k < s.len(),
    ensures
        s.remove(k).no_duplicates(),
        forall|x: usize| #[trigger] s.remove(k).contains(x) <==> (s.contains(x) && x != s[k]),
{
    let r = s.remove(k);
    assert forall|i: int, j: int| 0 <= i < r.len() && 0 <= j < r.len() && i != j implies r[i] != r[j] by {
        let i2 = if i < k { i } else { i + 1 };
        let j2 = if j < k { j } else { j + 1 };
        assert(r[i] == s[i2]);
        assert(r[j] == s[j2]);
    }
    assert forall|x: usize| #[trigger] r.contains(x) <==> (s.contains(x) && x != s[k]) by {
        if r.contains(x) {
            let i = choose|i: int| 0 <= i < r.len() && r[i] == x;
            let i2 = if i < k { i } else { i + 1 };
            assert(s[i2] == x);
        }
        if s.contains(x) && x != s[k] {
            let i = choose|i: int| 0 <= i < s.len() && s[i] == x;
            if i < k {
                assert(r[i] == x);
            } else {
                assert(r[i - 1] == x);
            }
        }
    }
}

} // verus!
