//! The ways in which the heap refuses a request.

use vstd::prelude::*;

verus! {

#[derive(PartialEq, Eq, Copy, Clone, Debug, Structural)]
pub enum HeapError {
    /// The Immix space has no block left to lease.
    OutOfBlocks,
    /// The large-object space has no room for the object.
    OutOfMemory,
    /// A size of zero, or an alignment that is no power of two.
    InvalidLayout,
    /// An address outside the range that a bitmap or map covers.
    OutOfCoverage,
    /// A collection ran and the pending allocation still does not fit.
    HeapExhausted,
}

} // verus!
