//! Extraction of printable, NUL-terminated strings from binary buffers:
//! chunked scanning, offset-keyed merging, and overlap resolution.

pub mod arg;
pub mod laws;
pub mod zstrings;
