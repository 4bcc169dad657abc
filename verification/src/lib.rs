//! Addressable pairing heaps.
//!
//! An addressable heap hands out a [`Handle`](handle::Handle) for every
//! element it stores. The handle stays valid until the element leaves the
//! heap and allows to look the element up and to decrease its key.
//!
//! Two layouts are offered behind the same interface: [`vec_heap`] keeps the
//! children of a node in a vector, [`ptr_heap`] links siblings into rings.
//! Handles are allocated by a `stash::Stash`.

pub mod handle;
pub mod key;
pub mod model;
mod index_table;
mod arena;
mod ring;
pub mod ptr_heap;
pub mod vec_heap;
