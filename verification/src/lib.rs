//! Bit-level reading and writing over byte buffers, in either bit order.

pub mod bits;
pub mod codes;
pub mod error;
pub mod huffman;
pub mod laws;
pub mod numeric;
pub mod order;
pub mod queue;
pub mod read;
pub mod write;
