//! Errors reported by the storage engine.
use vstd::prelude::*;

verus! {

/// `std::io::Error`, carried by [`errors::IoError`] without being inspected.
#[verifier::external_type_specification]
#[verifier::external_body]
pub struct ExIoError(std::io::Error);

/// `std::num::ParseIntError`, carried by [`errors::ParseError`] without being inspected.
#[verifier::external_type_specification]
#[verifier::external_body]
pub struct ExParseIntError(std::num::ParseIntError);

/// What can go wrong in the storage engine.
#[allow(non_camel_case_types)]
#[derive(Debug)]
pub enum errors {
    FailedToWriteFromFile,
    FailedTosyncFromFile,
    FailedToReadFromFile,
    FialedToOpenFile,
    IoError(std::io::Error),
    ParseError(std::num::ParseIntError),
    Other(String),
}

/// The engine's result type.
pub type Result<T> = core::result::Result<T, errors>;

} // verus!
