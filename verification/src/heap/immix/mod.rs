//! The Immix space: blocks of lines, leased to mutators that allocate in
//! them by bumping a cursor.

use vstd::prelude::*;
use vstd::arithmetic::power2::is_pow2;
use crate::common::is_power_of_two;
use crate::error::HeapError;

pub mod immix_mutator;
pub mod immix_space;

pub use self::immix_mutator::ImmixMutatorLocal;
pub use self::immix_space::{ImmixBlock, ImmixSpace};

verus! {

pub const LOG_BYTES_IN_LINE: usize = 8;

pub const BYTES_IN_LINE: usize = 256;

pub const LOG_BYTES_IN_BLOCK: usize = 15;

pub const BYTES_IN_BLOCK: usize = 32768;

pub const LINES_IN_BLOCK: usize = 128;

/// The mark bits that one line takes: one for each pointer-sized word.
pub const MARKS_IN_LINE: usize = 32;

/// The largest object that the Immix space takes: a block less one line.
pub const MAX_IMMIX_OBJECT: usize = 32512;

#[derive(PartialEq, Eq, Copy, Clone, Debug, Structural)]
pub enum LineMark {
    /// No live object touches the line.
    Free,
    /// A live object starts in the line.
    Marked,
    /// The line follows a marked line, whose last object may reach into it.
    ConservativelyMarked,
}

#[derive(PartialEq, Eq, Copy, Clone, Debug, Structural)]
pub enum BlockMark {
    /// No line of the block is in use.
    Unallocated,
    /// A mutator holds the block.
    CurrentlyInUseByMutator,
    /// Some lines of the block are free.
    Usable,
    /// No line of the block is free.
    Full,
}

/// Whether the Immix space takes a request for `size` bytes at a multiple
/// of `align`: the size is not zero and leaves a line of a block free, and
/// the alignment is a power of two no larger than a block. `InvalidLayout`
/// where it does not.
pub fn check_layout(size: usize, align: usize) -> (r: Result<(), HeapError>)
    ensures
        r is Ok <==> 0 < size <= MAX_IMMIX_OBJECT && is_pow2(align as int) && align
            <= BYTES_IN_BLOCK,
        r is Err ==> r == Err::<(), HeapError>(HeapError::InvalidLayout),
{
    if size > 0 && size <= MAX_IMMIX_OBJECT && is_power_of_two(align) && align <= BYTES_IN_BLOCK {
        Ok(())
    } else {
        Err(HeapError::InvalidLayout)
    }
}

} // verus!
