//! A stop-the-world mark-and-sweep collector over an Immix heap with a
//! free-list space for large objects.
//!
//! The crate holds the collector's bookkeeping: address arithmetic, the mark
//! tables, block and line leasing, bump allocation, the large-object list and
//! the collection protocol. It never touches memory itself; the embedding
//! runtime reserves the heap, parks its threads and reads object slots, and
//! hands the library plain addresses.

pub mod common;
pub mod error;
pub mod gc_ref;
pub mod heap;

pub use gc_ref::GC;
pub use heap::immix::ImmixMutatorLocal as Mutator;
