//! Two reversible byte-stream codecs: a run-length encoding and a windowed
//! dictionary encoding with literal and back-reference tokens.
//!
//! Each codec is a pair of functions from a byte slice to bytes appended to a
//! caller-owned sink. Every function is specified against a mathematical
//! model of its wire format, and each codec is proved to decode what it
//! encodes.

pub mod lz;
pub mod rle;
