//! A vector that keeps its first elements in an inline region and spills the
//! rest into a fixed table of lazily allocated, fixed-size chunks.

mod arith;
pub mod laws;
pub mod layout;
mod paged;

pub use paged::{ChunkIter, PagedSmallVec, DEFAULT_CHUNK, DEFAULT_DIRECT, DEFAULT_INLINE};
