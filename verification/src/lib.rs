//! Lossless compression of byte buffers: a Burrows-Wheeler transform over a
//! sequence that carries one end marker, followed by run-length encoding.

pub mod symbol;
pub mod bwtstring;
pub mod rotation;
pub mod error;
pub mod inverse;
pub mod rle;
pub mod pipeline;
pub mod round_trip;
pub mod text;
