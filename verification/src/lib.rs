//! Lossless conversion between arbitrary bytes and UTF-8 text.
//!
//! Bytes that cannot appear in well-formed UTF-8 are carried by codepoints
//! of a reserved band, `U+EF80`..`U+EFFF`, one codepoint per byte value
//! `0x80`..`0xFF`. A codepoint of the band (or the escape marker `U+EF00`)
//! that occurs naturally in the input is prefixed with the escape marker, so
//! that the mapping stays reversible. Text values are handled as their UTF-8
//! byte sequences throughout; [`codec::bytes_to_str`] proves that every
//! sequence it returns is well-formed UTF-8.
//!
//! The forward and backward transducers are [`codec::bytes_to_str`] and
//! [`codec::str_to_bytes`]; the laws that relate them, above all the
//! round-trip `decoded(encoded(b)) == b`, are proved in [`laws`].

pub mod codec;
pub mod laws;
pub mod utf8;

pub use codec::bytes_to_str;
pub use codec::need_escape;
pub use codec::str_to_bytes;
