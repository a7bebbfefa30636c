//! Errors reported by the index.

use vstd::prelude::*;

verus! {

/// What can go wrong while reading or searching an index.
#[derive(Debug, Clone, Copy, PartialEq, Eq, Structural)]
pub enum Error {
    /// The data ended before a whole node item could be read.
    UnexpectedEof,
    /// A search reached a node of the leaf level that is stored before the
    /// leaves and asked to descend below the leaf level: the index data is
    /// not a packed R-tree of the given shape.
    CorruptIndex,
}

} // verus!
