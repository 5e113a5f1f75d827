//! The architecture-specific parts: the ARMv8 translation tables, and the memory
//! layout of each supported machine.

pub mod aarch64;
pub mod test;

use crate::Result;
use vstd::prelude::*;

verus! {

/// Exception handling that each architecture supplies.
pub trait HandlerTrait {
    /// Initialise exception handling.
    fn handler_init() -> Result<()>;
}

} // verus!
