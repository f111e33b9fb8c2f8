//! The errors of the library.

use vstd::prelude::*;

verus! {

/// What went wrong, for a caller that decides by it.
#[derive(Debug, Clone, Copy, PartialEq, Eq, Structural)]
pub enum IoErrorKind {
    NotFound,
    PermissionDenied,
    NotConnected,
    BrokenPipe,
    InvalidInput,
    InvalidData,
    UnexpectedEof,
    Other,
}

/// An error with a message for the user.
#[derive(Debug)]
pub struct IoError {
    pub kind: IoErrorKind,
    pub message: String,
}

/// The error of the given kind whose message is a fixed text.
pub open spec fn is_error(e: IoError, kind: IoErrorKind, message: Seq<char>) -> bool {
    e.kind == kind && e.message@ == message
}

impl IoError {
    pub fn new(kind: IoErrorKind, message: &str) -> (e: IoError)
        ensures
            is_error(e, kind, message@),
    {
        IoError { kind, message: message.to_string() }
    }
}

} // verus!
