//! Typed failures of the library's parsing and validation paths.  Upstream
//! data sources are noisy, so malformed records surface as recoverable
//! errors, never as panics.

use vstd::prelude::*;

verus! {

/// A recoverable failure, carrying a diagnostic message.
#[derive(Debug)]
pub enum AppError {
    /// Malformed textual input: an unparseable address, width or record.
    ParseError(String),
    /// A caller-supplied argument that the operation cannot accept.
    InvalidInput(String),
    /// Any other failure described only by its message.
    Other(String),
}

impl AppError {
    /// The diagnostic message carried by the error.
    pub open spec fn spec_message(&self) -> Seq<char> {
        match self {
            AppError::ParseError(s) => s@,
            AppError::InvalidInput(s) => s@,
            AppError::Other(s) => s@,
        }
    }

    /// The diagnostic message carried by the error.
    pub fn message(&self) -> (m: &String)
        ensures
            m@ == self.spec_message(),
    {
        match self {
            AppError::ParseError(s) => s,
            AppError::InvalidInput(s) => s,
            AppError::Other(s) => s,
        }
    }
}

} // verus!
