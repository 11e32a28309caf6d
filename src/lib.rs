//! Turns a byte buffer into text: runs of 7-bit ASCII bytes are kept as they
//! are, runs of other bytes are written as uppercase hexadecimal, one
//! two-digit value and a space per byte.

pub mod fragment;
pub mod laws;
pub mod segment;
pub mod text;
