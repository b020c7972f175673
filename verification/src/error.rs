//! The error taxonomy surfaced to callers of the outward-facing
//! operations.

use vstd::prelude::*;

verus! {

/// Why an outward-facing operation failed. `NotFound` names a run that does
/// not exist; `Io` a file that could not be read or written; `Serde` a
/// record that could not be decoded.
#[derive(Debug, Clone, Copy, PartialEq, Eq, Structural)]
pub enum Error {
    Unauthorized,
    Forbidden,
    NotFound,
    Io,
    Serde,
}

impl Error {
    /// A short description of the failure, for whatever surface reports it.
    pub fn message(&self) -> (r: &'static str)
        ensures
            r@ == match self {
                Error::Unauthorized => "Not authorized"@,
                Error::Forbidden => "Forbidden"@,
                Error::NotFound => "Not Found"@,
                Error::Io => "io error"@,
                Error::Serde => "serde error"@,
            },
    {
        match self {
            Error::Unauthorized => "Not authorized",
            Error::Forbidden => "Forbidden",
            Error::NotFound => "Not Found",
            Error::Io => "io error",
            Error::Serde => "serde error",
        }
    }
}

} // verus!
