use vstd::prelude::*;

verus! {

/// The ways a path operation can fail: an I/O failure met while turning a
/// working directory absolute, or a resolution that ran out of ancestors
/// (a `..` chain climbing above the topmost directory of the base).
#[derive(Clone, Copy, Debug, PartialEq, Eq, Structural)]
pub enum ErrorKind {
    Io,
    Unknown,
}

/// Error value carried by the fallible path operations.
#[derive(Clone, Copy, Debug, PartialEq, Eq, Structural)]
pub struct Error {
    kind: ErrorKind,
}

impl Error {
    /// The kind this error was built with.
    pub closed spec fn spec_kind(&self) -> ErrorKind {
        self.kind
    }

    pub fn new(kind: ErrorKind) -> (r: Error)
        ensures
            r.spec_kind() == kind,
    {
        Error { kind }
    }

    pub fn kind(&self) -> (r: &ErrorKind)
        ensures
            *r == self.spec_kind(),
    {
        &self.kind
    }
}

} // verus!
