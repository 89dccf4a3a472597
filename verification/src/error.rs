//! The closed set of failures that decoding can report.

use vstd::prelude::*;

verus! {

/// Different variants of possible errors.
#[derive(Debug, PartialEq, Eq, Clone, Copy, Structural)]
pub enum ErrorKind {
    /// Returned when deserialization from bytes to char fails.
    InvalidChar,
    /// Returned when deserialization from bytes to text fails.
    InvalidStr,
    /// Returned when an input slice, buffer or stream is of invalid length.
    InvalidSliceLength,
    /// Returned when a tagged union's discriminant is outside the variant range.
    InvalidDiscriminant,
    /// Returned when an input slice cannot be deserialized into the given type.
    InvalidInput,
}

/// An error type carrying one [`ErrorKind`], used for all errors in this crate.
#[derive(Debug, PartialEq, Eq, Clone, Copy, Structural)]
pub struct Error {
    /// The kind of failure this error reports.
    pub kind: ErrorKind,
}

impl Error {
    /// Wraps an [`ErrorKind`] as an error.
    pub fn new(kind: ErrorKind) -> (e: Error)
        ensures
            e.kind == kind,
    {
        Error { kind }
    }

    /// Returns the [`ErrorKind`] of the current error.
    pub fn kind(&self) -> (k: ErrorKind)
        ensures
            k == self.kind,
    {
        self.kind
    }

    /// A short description of the error, one fixed text per kind.
    pub fn message(&self) -> (s: &'static str)
        ensures
            self.kind is InvalidChar ==> s@ == "Deserialization from bytes to char failed"@,
            self.kind is InvalidStr ==> s@ == "Deserialization from bytes to String failed"@,
            self.kind is InvalidSliceLength ==> s@ == "Input slice is of invalid length"@,
            self.kind is InvalidDiscriminant ==> s@
                == "Input discriminant is out of range for the union"@,
            self.kind is InvalidInput ==> s@
                == "input slice cannot be de-serialized into given type"@,
    {
        match self.kind {
            ErrorKind::InvalidChar => "Deserialization from bytes to char failed",
            ErrorKind::InvalidStr => "Deserialization from bytes to String failed",
            ErrorKind::InvalidSliceLength => "Input slice is of invalid length",
            ErrorKind::InvalidDiscriminant => "Input discriminant is out of range for the union",
            ErrorKind::InvalidInput => "input slice cannot be de-serialized into given type",
        }
    }
}

} // verus!
