//! The two spaces of the heap and the collector that works on them.

pub mod freelist;
pub mod gc;
pub mod immix;
