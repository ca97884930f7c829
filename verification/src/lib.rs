//! A decoder for the DEFLATE compressed data format (RFC 1951), with its
//! behaviour stated and proved in Verus.

pub mod bits;
pub mod tables;
pub mod huffman;
pub mod model;
pub mod inflate;
pub mod laws;
pub mod dump;

pub use inflate::{decode, decode_checked, Status};
