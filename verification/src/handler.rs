//! Register exception handlers and service exceptions.

use crate::Result;
use vstd::prelude::*;

verus! {

/// Initialise the exception handling module.
pub fn init() -> (r: Result<()>)
    ensures
        r is Ok,
{
    Ok(())
}

} // verus!
