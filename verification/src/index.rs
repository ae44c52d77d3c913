//! Handles: how a caller's own index type is turned into a slot position.

use vstd::prelude::*;

verus! {

/// A trait which allows you to customize how indexes are stored on your side of the
/// api.
///
/// The conversion is pure: `to_index` returns the position given by `slot`, every
/// time it is asked. An implementation gives the same conversion in both.
pub trait Indexable {
    /// The slot position that this handle stands for.
    spec fn slot(&self) -> usize;

    /// Converts the handle to the arena's own representation.
    fn to_index(&self) -> (index: usize)
        ensures
            index == self.slot(),
    ;
}

impl Indexable for usize {
    open spec fn slot(&self) -> usize {
        *self
    }

    fn to_index(&self) -> (index: usize) {
        *self
    }
}

} // verus!
