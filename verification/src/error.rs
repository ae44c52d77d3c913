//! What can go wrong when a slot is read or its reference count changes.

use vstd::prelude::*;

verus! {

/// Errors which may occur while accessing and modifying memory.
///
/// None of them leaves the arena changed: the request is cancelled and the arena is as
/// it was before the call.
#[derive(Debug)]
pub enum AccessError {
    /// The index names no value: the slot is free, or the index lies past the end of
    /// the arena. The index is handed back.
    FreeMemory(usize),
    /// A reference count would have left the range of `usize`.
    ReferenceOverflow,
}

} // verus!
