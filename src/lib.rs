//! Splits a stream of text lines into fixed-size groups and records, for each
//! group, the inclusive line range and byte range it occupies in the input.
pub mod chunk;
pub mod decimal;
pub mod factory;

pub use chunk::{encode_chunks, Chunk};
pub use factory::ChunkFactory;

