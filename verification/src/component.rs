use vstd::prelude::*;
use crate::oneton_densevec::DenseOneToNVec;
use crate::oneton_forest::OneToNForest;
use crate::storage::Storage;

verus! {

/// A type that entities can hold, with the storage that keeps it.
pub trait Component: 'static + Sized {
    /// The storage that keeps the components of this type.
    type Storage: Storage<Self>;

    /// The name of the type, for messages.
    fn component_name() -> &'static str;
}

/// A component that may be used from any thread.
pub trait ComponentSync: Component {}

impl<C: Component + Send> ComponentSync for C {}

/// A component used from the thread that owns the world.
pub trait ComponentThreadLocal: Component {}

impl<C: Component> ComponentThreadLocal for C {}

/// A component of which an entity may hold any number.
pub trait OneToNComponent: 'static + Sized + Clone + Component<Storage = DenseOneToNVec<Self>> {}

/// A one-to-many component that may be used from any thread.
pub trait OneToNComponentSync: OneToNComponent + Send {}

impl<C: OneToNComponent + Send> OneToNComponentSync for C {}

/// A one-to-many component used from the thread that owns the world.
pub trait OneToNComponentThreadLocal: OneToNComponent {}

impl<C: OneToNComponent> OneToNComponentThreadLocal for C {}

/// A component of which an entity may hold any number of trees.
pub trait HierarchicalOneToNComponent: 'static + Sized + Component<Storage = OneToNForest<Self>> {}

/// A hierarchical one-to-many component that may be used from any thread.
pub trait HierarchicalOneToNComponentSync: HierarchicalOneToNComponent + Send {}

impl<C: HierarchicalOneToNComponent + Send> HierarchicalOneToNComponentSync for C {}

/// A hierarchical one-to-many component used from the thread that owns the
/// world.
pub trait HierarchicalOneToNComponentThreadLocal: HierarchicalOneToNComponent {}

impl<C: HierarchicalOneToNComponent> HierarchicalOneToNComponentThreadLocal for C {}

} // verus!
