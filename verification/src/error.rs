//! The error type shared by every stage of a run.

use vstd::prelude::*;

verus! {

/// The stage of a run at which a failure arose.
#[derive(Clone, Copy, Debug, PartialEq, Eq, Structural)]
pub enum ErrorKind {
    /// The invocation itself was incomplete.
    Input,
    /// The input could not be opened or read.
    Io,
    /// A seat code could not be turned into a seat id.
    Decode,
    /// The decoded seats do not determine a lowest, highest and missing id.
    Analysis,
}

/// A failure, tagged with the stage it arose in and a message for the user.
#[derive(Debug)]
pub struct Error {
    pub kind: ErrorKind,
    pub message: String,
}

/// The mathematical content of an [`Error`]: its kind and the characters of
/// its message.
pub struct ErrorView {
    pub kind: ErrorKind,
    pub message: Seq<char>,
}

impl View for Error {
    type V = ErrorView;

    open spec fn view(&self) -> ErrorView {
        ErrorView { kind: self.kind, message: self.message@ }
    }
}

impl Error {
    /// Builds an error of the given kind carrying `message`.
    pub fn new(kind: ErrorKind, message: String) -> (e: Error)
        ensures
            e.kind == kind,
            e.message == message,
    {
        Error { kind, message }
    }

    /// The error that reports an I/O failure described by `reason`.
    pub fn io(reason: &str) -> (e: Error)
        ensures
            e@ == io_error(reason@),
    {
        let mut message = String::from_str("io error:");
        message.append(reason);
        Error::new(ErrorKind::Io, message)
    }

    /// The stage this error arose in.
    pub fn kind(&self) -> (k: ErrorKind)
        ensures
            k == self.kind,
    {
        self.kind
    }

    /// A copy of the message, as it is shown to the user.
    pub fn message(&self) -> (m: String)
        ensures
            m@ == self.message@,
    {
        self.message.clone()
    }
}

/// What [`Error::io`] yields for a failure described by `reason`.
pub open spec fn io_error(reason: Seq<char>) -> ErrorView {
    ErrorView { kind: ErrorKind::Io, message: "io error:"@ + reason }
}

} // verus!
