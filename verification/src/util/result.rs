//! Uniform structure for errors and results.

use vstd::prelude::*;

verus! {

/// Specified errors.
#[derive(Debug, Clone, Copy, PartialEq, Eq, Structural)]
pub enum Error {
    /// Function completes with no adverse conditions
    Success,
    /// Function failed with undefined error
    UnknownError,
    /// Function failed because not implemented
    Unimplemented,
    /// The operation is not defined for the value
    Undefined,
    /// No memory remains to satisfy the request
    OutOfMemory,
    /// No pages remain on the requested list
    OutOfPages,
    /// The resource has not been initialised
    UnInitialised,
    /// The device does not behave as required
    DeviceIncompatible,
    /// A value was not of the expected form
    UnexpectedValue,
    /// The device has no capacity left for the request
    DeviceAtCapacity,
    /// The device has no outstanding requests
    DeviceIdle,
    /// The request has not completed yet
    WouldBlock,
}

/// Default error type for kernel functions.
pub type Result<T> = core::result::Result<T, Error>;

} // verus!
