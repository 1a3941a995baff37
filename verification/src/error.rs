//! Status codes reported by the offload engine and by this library.

use vstd::prelude::*;

verus! {

/// Engine status code. `Success` is the code carried by a completion event of
/// a job that finished without error; every other variant names a failure
/// class, surfaced verbatim by the fallible operations of this crate.
#[derive(Clone, Copy, Debug, PartialEq, Eq, Structural)]
pub enum DOCAError {
    /// The operation completed without error.
    Success,
    /// A bad argument: an out-of-range sub-range, a malformed descriptor.
    InvalidValue,
    /// An allocation failed, or a fixed-capacity pool is exhausted.
    NoMemory,
    /// No matching device, or no devices at all.
    NotFound,
    /// The device lacks a required capability.
    NotSupported,
    /// The operation is forbidden in the object's current state.
    NotPermitted,
    /// The driver reported an internal error.
    DriverError,
    /// Reading or writing a handoff file failed.
    IoFailed,
    /// Nothing has completed yet: retry. Never a final failure.
    Again,
}

/// The result type used throughout the crate.
pub type DOCAResult<T> = Result<T, DOCAError>;

} // verus!
