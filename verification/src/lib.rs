//! Kernel memory-management logic: typed addresses and address ranges,
//! address translations, page attributes, page and frame allocators, and
//! the aarch64 page-table encodings and walks.

pub mod archs;
pub mod debug;
pub mod device;
pub mod handler;
pub mod log;
pub mod pager;
pub mod util;

pub use util::result::{Error, Result};
