//! Miscellaneous support.

pub mod result;
pub mod bitfield;
