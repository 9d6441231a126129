//! Errors: a kind, for the caller to act on, and a message, for a human.

use vstd::prelude::*;

verus! {

/// What went wrong, as far as a program cares.
#[derive(Clone, Copy, Debug, PartialEq, Eq, Structural)]
pub enum ErrorKind {
    /// The data is not what it claims to be.
    InvalidData,
    /// The data is fine, and this crate has no support for it.
    Unsupported,
    /// Nothing goes by the name that was asked for.
    NotFound,
    /// The request makes no sense.
    InvalidInput,
}

/// An error with its message.
#[derive(Debug)]
pub struct Error {
    pub kind: ErrorKind,
    pub message: String,
}

/// What an [`Error`] says.
#[verifier::ext_equal]
pub ghost struct ErrorView {
    pub kind: ErrorKind,
    pub message: Seq<char>,
}

impl View for Error {
    type V = ErrorView;

    open spec fn view(&self) -> ErrorView {
        ErrorView { kind: self.kind, message: self.message@ }
    }
}

/// Invalid data, with a message.
pub open spec fn invalid_data(message: Seq<char>) -> ErrorView {
    ErrorView { kind: ErrorKind::InvalidData, message }
}

/// Something unsupported, with a message.
pub open spec fn unsupported(message: Seq<char>) -> ErrorView {
    ErrorView { kind: ErrorKind::Unsupported, message }
}

impl Error {
    /// An error of the given kind.
    pub fn new(kind: ErrorKind, message: String) -> (error: Self)
        ensures
            error@ == (ErrorView { kind, message: message@ }),
    {
        Error { kind, message }
    }

    /// An error about invalid data.
    pub fn bad(message: &str) -> (error: Self)
        ensures
            error@ == invalid_data(message@),
    {
        Error { kind: ErrorKind::InvalidData, message: message.to_owned() }
    }

    /// The kind of error.
    pub fn kind(&self) -> (kind: ErrorKind)
        ensures
            kind == self@.kind,
    {
        self.kind
    }

    /// The text of the error.
    pub fn message(&self) -> (message: &str)
        ensures
            message@ == self@.message,
    {
        self.message.as_str()
    }
}

} // verus!
