//! The error kinds shared by all operations.

use vstd::prelude::*;

verus! {

/// Why an operation failed.
#[derive(Clone, Copy, Debug, PartialEq, Eq, Structural)]
pub enum ErrorKind {
    /// The input could not be read or decoded.
    DecodeFailure,
    /// The result could not be encoded or written.
    EncodeFailure,
    /// An argument was not one of the accepted values.
    InvalidArgument,
    /// A placement reached outside the image it was applied to.
    OutOfBounds,
    /// A batch worker did not finish in time.
    Timeout,
}

impl ErrorKind {
    /// A short text for messages to a user.
    pub fn describe(self) -> (text: &'static str)
        ensures
            text@ == match self {
                ErrorKind::DecodeFailure => "failed to open image"@,
                ErrorKind::EncodeFailure => "failed to save image"@,
                ErrorKind::InvalidArgument => "invalid argument"@,
                ErrorKind::OutOfBounds => "overlay exceeds the base image"@,
                ErrorKind::Timeout => "timed out"@,
            },
    {
        match self {
            ErrorKind::DecodeFailure => "failed to open image",
            ErrorKind::EncodeFailure => "failed to save image",
            ErrorKind::InvalidArgument => "invalid argument",
            ErrorKind::OutOfBounds => "overlay exceeds the base image",
            ErrorKind::Timeout => "timed out",
        }
    }
}

} // verus!
