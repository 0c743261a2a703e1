//! The errors that reading and writing tables can end in.

use vstd::prelude::*;

verus! {

/// What went wrong.
#[derive(Debug, Clone, Copy, PartialEq, Eq, Structural)]
pub enum ErrorKind {
    /// A file that was asked for does not exist.
    NotFound,
    /// The source ended before the bytes that were asked for.
    UnexpectedEof,
    /// The bytes are no data item of the expected kind: another major type,
    /// a malformed head, or text that is not UTF-8.
    InvalidData,
    /// An offset taken from an index does not lead to a record.
    OffsetDangling,
    /// A position or a length that cannot be represented.
    InvalidInput,
}

/// An error of this library. It carries its kind and nothing else.
#[derive(Debug, Clone, Copy, PartialEq, Eq, Structural)]
pub struct Error {
    pub kind: ErrorKind,
}

impl Error {
    /// An error of the given kind.
    pub fn new(kind: ErrorKind) -> (e: Error)
        ensures
            e.kind == kind,
    {
        Error { kind }
    }

    /// The kind of this error.
    pub fn kind(&self) -> (k: ErrorKind)
        ensures
            k == self.kind,
    {
        self.kind
    }
}

} // verus!
