//! Errors the kernel's memory and device code report.

use vstd::prelude::*;

verus! {

#[derive(Clone, Copy, Debug, PartialEq, Eq, Structural)]
pub enum KernelError {
    /// No memory is left to satisfy a request.
    NoMemory,
    /// An argument is outside what the operation accepts.
    InvalidValue,
    /// A transfer would pass the end of a device.
    OutOfBounds,
    /// The operation is not offered.
    NotSupported,
    /// The file is not a directory.
    NotADirectory,
    /// The file is not a terminal.
    NotATty,
}

} // verus!
