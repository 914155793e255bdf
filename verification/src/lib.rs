//! A byte formatter: renders a byte buffer as two-digit lowercase
//! hexadecimal text, arranged into groups and columns, with optional
//! per-byte prefix/postfix decoration, a starting offset and a maximum
//! length.

pub mod format;
pub mod hex;
pub mod laws;
pub mod parse;
