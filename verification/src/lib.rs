//! Host/guest input framing: payload bytes are carried as a stream of
//! `u32` words, a length word followed by the payload packed four bytes per
//! word in little-endian order.

pub mod transport;
pub mod input;
pub mod inputs;
pub mod text;
pub mod wire;
pub mod word_reader;
