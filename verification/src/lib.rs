//! A reference-counted slot arena.
//!
//! A [`NodeField`] keeps values of one type in a single growable buffer and hands out
//! small integer handles to them. A value stays in place while at least one holder has
//! registered interest in it and leaves the arena, returned to the caller, when the last
//! holder releases it. The arena is meant for graphs and similar structures whose nodes
//! have several owners and should still sit next to each other in memory.
//!
//! Free slots are found by a linear scan from the front: a `push` fills the lowest free
//! slot and grows the buffer only when every slot is occupied. No extra bookkeeping is
//! kept, so compaction has nothing to rebuild.
//!
//! The arena has no weak references and no cycle collector, and it is not meant to be
//! mutated from several threads: holders count their references by hand with
//! [`NodeField::add_ref`] and [`NodeField::remove_ref`].
//!
//! Handles are `usize` inside the arena; any type that implements [`Indexable`] can be
//! passed where a handle is expected.
//!
//! Every operation carries a contract over the arena's view, a sequence of [`Slot`]s,
//! and the module [`laws`] proves what follows from those contracts when several
//! operations are combined.

pub mod error;
pub mod index;
pub mod laws;
pub mod node_field;
pub mod prelude;
pub mod remap;
pub mod slots;

pub use crate::error::AccessError;
pub use crate::index::Indexable;
pub use crate::node_field::NodeField;
pub use crate::slots::Slot;
