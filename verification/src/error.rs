//! The errors a build can end in.

use vstd::prelude::*;

verus! {

/// Why a multipart body could not be assembled or transferred.
///
/// `build` fails fast: no partial stream is ever handed back beside one of
/// these values.
#[derive(Clone, Copy, Debug, PartialEq, Eq, Structural)]
pub enum Error {
    /// A referenced file could not be opened or measured (missing file,
    /// permission error, or a size that changed before the stream was read).
    InvalidFile,
    /// A nested multipart node carries no `Content-Type: multipart/*` header
    /// with a usable `boundary=` parameter.
    MalformedNestedBoundary,
    /// The assembled body could not be transferred to its consumer.
    PayloadError,
    /// The declared lengths add up to more than a machine integer holds.
    TooLarge,
}

impl Error {
    /// A short human-readable description of the error.
    pub fn message(&self) -> (r: &'static str)
        ensures
            *self == Error::InvalidFile ==> r@ == "invalid file: not found or not readable"@,
            *self == Error::MalformedNestedBoundary ==> r@ == "malformed nested boundary"@,
            *self == Error::PayloadError ==> r@ == "payload error"@,
            *self == Error::TooLarge ==> r@ == "body length overflows a machine integer"@,
    {
        match self {
            Error::InvalidFile => "invalid file: not found or not readable",
            Error::MalformedNestedBoundary => "malformed nested boundary",
            Error::PayloadError => "payload error",
            Error::TooLarge => "body length overflows a machine integer",
        }
    }
}

} // verus!
