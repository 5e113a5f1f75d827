//! ARM architecture v8 (64-bit).

pub mod map;
pub mod order;
pub mod pager;
pub mod resolve;
pub mod table;
pub mod walk;
pub mod written;

use vstd::prelude::*;

verus! {

/// Width of kernel (upper range) virtual addresses: 512 GB, avoids one level.
pub const UPPER_VA_BITS: usize = 39;

/// Width of user (lower range) virtual addresses: 256 TB.
pub const LOWER_VA_BITS: usize = 48;

} // verus!
