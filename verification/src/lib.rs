//! A mergeable min-priority queue.
//!
//! The heap is a skew heap whose nodes live in a growable arena of
//! integer-addressed slots. Removed slots are recycled through a FIFO free
//! list, and an on-demand compaction pass rebuilds the arena once most of it
//! is free, so steady-state memory stays proportional to the live item count.

mod arena;
mod compact;
mod heap;
pub mod laws;
mod model;

pub use heap::SkewHeap;
