//! An entity component system whose storages and hierarchy arena carry
//! machine-checked contracts.

pub mod assoc_vec;
pub mod bitmask;
pub mod component;
pub mod dense_vec;
pub mod entity;
pub mod forest;
pub mod idtree;
pub mod oneton_densevec;
pub mod oneton_forest;
pub mod schedule;
pub mod storage;
pub mod tree;
pub mod vec;
mod tree_lemmas;
mod tree_detach;
mod tree_link;
