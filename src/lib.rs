//! Reading, rewriting and checking the chunk stream of a PNG file held in memory.

pub mod bytes;
pub mod chunk;
pub mod error;
pub mod laws;
pub mod png;
