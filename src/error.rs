//! Errors of the codec and of the session.
use vstd::prelude::*;

verus! {

/// The category of an [`Error`].
#[derive(Clone, Copy, PartialEq, Eq, Debug, Structural)]
pub enum ErrorKind {
    /// A value cannot be encoded: a count or a length does not fit its field.
    InvalidInput,
    /// Bytes that are not a well-formed frame, or a frame the protocol forbids here.
    InvalidData,
    /// The input ended inside a field.
    UnexpectedEof,
    /// The session no longer accepts new requests because the peer is draining it.
    ConnectionRefused,
    /// The session has been closed.
    BrokenPipe,
    /// Every tag id is in use.
    Exhausted,
    /// Any other failure, such as an error reported by the peer.
    Other,
}

/// An error with its category and a description.
#[derive(Debug)]
pub struct Error {
    pub kind: ErrorKind,
    pub msg: String,
}

impl Error {
    /// A new error of the given kind.
    pub fn new(kind: ErrorKind, msg: &str) -> (r: Error)
        ensures
            r.kind == kind,
            r.msg@ == msg@,
    {
        Error { kind, msg: msg.to_owned() }
    }

    /// A copy of this error: same kind, same description.
    pub fn copy(&self) -> (r: Error)
        ensures
            r.kind == self.kind,
            r.msg@ == self.msg@,
    {
        Error { kind: self.kind, msg: self.msg.clone() }
    }

    /// The description of this error.
    pub fn to_string(&self) -> (r: String)
        ensures
            r@ == self.msg@,
    {
        self.msg.clone()
    }
}

} // verus!
