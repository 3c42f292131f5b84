use vstd::prelude::*;
use vstd::string::StringExecFns;

verus! {

/// The kinds of recoverable failure a store operation can surface.
#[derive(Clone, Copy, Debug, PartialEq, Eq, Structural)]
pub enum ErrorKind {
    /// An operation referenced a table name not present in the namespace.
    NoSuchTable,
    /// An operation referenced a field name not present in an existing table.
    NoSuchField,
    /// Stored bytes could not be interpreted as the caller-requested type.
    TypeMismatch,
    /// A snapshot's bytes are not a valid namespace encoding.
    DecodeError,
}

/// A recoverable store error: a kind for callers to dispatch on, and a
/// human-readable message.
#[derive(Clone, Debug)]
pub struct Error {
    pub kind: ErrorKind,
    pub message: String,
}

impl Error {
    pub fn new(kind: ErrorKind, message: &str) -> (e: Error)
        ensures
            e.kind == kind,
            e.message@ == message@,
    {
        Error { kind, message: String::from_str(message) }
    }

    /// The kind of failure, for dispatching without reading `kind` directly.
    pub fn kind(&self) -> (k: ErrorKind)
        ensures
            k == self.kind,
    {
        self.kind
    }
}

} // verus!
