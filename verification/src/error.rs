//! The errors this library reports.

use vstd::prelude::*;

verus! {

/// Declares std::io::Error, which the error enum carries as an opaque value.
#[verifier::external_type_specification]
#[verifier::external_body]
pub struct ExIoError(std::io::Error);

/// An error of this library.
#[derive(Debug)]
pub enum Error {
    /// A division had zero as its divisor.
    DivisionByZero,
    /// An input was malformed; the payload describes it.
    InvalidInput(String),
    /// An input/output operation failed.
    Io(std::io::Error),
}

} // verus!
