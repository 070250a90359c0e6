//! An adapter that turns any sequential, pull-based source of items into a
//! sequence of bounded-size chunks: each chunk yields up to `N` items pulled
//! on demand from the source, and the adapter moves on to the next chunk once
//! the current one is drained, without buffering anything.
//!
//! The source capability is the [`Source`] trait: a pull operation that either
//! produces an item or signals exhaustion, plus a best-effort estimate of how
//! many items are still to come. Exhaustion need not be permanent; a source
//! may produce items again after signaling it, and the adapter surfaces
//! exactly one "no chunk" answer per exhaustion event before trying again.

pub mod chunking;
pub mod model;
pub mod source;
pub mod sources;

pub use chunking::Chunk;
pub use chunking::ChunkCollector;
pub use chunking::ChunkVisitor;
pub use chunking::Chunks;
pub use chunking::IterChunks;
pub use source::Source;
