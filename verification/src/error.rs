//! The failures that the editing core reports.

use vstd::prelude::*;

verus! {

/// The broad class of an I/O failure.
#[derive(Debug, Clone, Copy, PartialEq, Eq, Structural)]
pub enum IoErrorKind {
    /// The file, or the path to write to, does not exist.
    NotFound,
    /// Any other read or write fault.
    Other,
}

/// What went wrong in an operation of the editing core.
#[derive(Debug)]
pub enum Error {
    /// A read or write fault, with its class and its description.
    Io(IoErrorKind, String),
    /// No open document has the given id.
    DocumentNotFound(u64),
    /// The editor has no active document.
    NoActiveDocument,
    /// A position outside the text.
    InvalidPosition(usize),
    /// Text that could not be parsed.
    ParseError(String),
}

} // verus!
