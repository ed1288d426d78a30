//! Errors reported by the arena and the skiplist.

use vstd::prelude::*;

verus! {

/// Why an arena or skiplist operation was refused.
#[derive(Debug, Clone, Copy, PartialEq, Eq, Structural)]
pub enum TinyError {
    /// The arena has no room left for the requested allocation.
    OutOfSpace,
    /// A read asked for bytes beyond what the arena has handed out.
    OutOfRange,
    /// The key is already stored in the skiplist.
    DuplicateKey,
}

} // verus!
