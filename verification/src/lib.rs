//! Delta synchronization between an old and a new byte buffer: fixed-size
//! chunking of the old buffer into a signature table, a rolling weak checksum
//! scan of the new buffer, and a token stream of literals and chunk matches
//! that reconstructs the new buffer from the signature table alone.

pub mod algorithm;
pub mod correctness;
pub mod delta;
pub mod error;
pub mod fletcher_32;
pub mod adler_32;
pub mod patch;
pub mod rolling;
pub mod sign;
pub mod utils;
