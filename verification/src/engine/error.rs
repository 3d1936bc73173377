//! The engine's error type.

use vstd::prelude::*;
use crate::text;

verus! {

/// What can go wrong in the engine.
#[derive(Debug, Clone, PartialEq, Eq)]
pub enum Error {
    /// A file operation failed.
    Io(String),
    /// Stored data failed an integrity check.
    Corruption(String),
    /// The caller passed something that cannot be done.
    InvalidArgument(String),
    /// Percolator prewrite conflict: another transaction holds a lock on the key, or a commit
    /// newer than the transaction's snapshot exists.
    Conflict(String),
    /// A leftover lock was met whose primary is still pending within its time to live; the
    /// caller should back off and retry.
    KeyIsLocked(String),
}

/// An [`Error`] with its text as characters.
pub enum ErrorView {
    Io(Seq<char>),
    Corruption(Seq<char>),
    InvalidArgument(Seq<char>),
    Conflict(Seq<char>),
    KeyIsLocked(Seq<char>),
}

/// What an engine operation gives.
pub type Result<T> = core::result::Result<T, Error>;

impl View for Error {
    type V = ErrorView;

    open spec fn view(&self) -> ErrorView {
        match self {
            Error::Io(m) => ErrorView::Io(m@),
            Error::Corruption(m) => ErrorView::Corruption(m@),
            Error::InvalidArgument(m) => ErrorView::InvalidArgument(m@),
            Error::Conflict(m) => ErrorView::Conflict(m@),
            Error::KeyIsLocked(m) => ErrorView::KeyIsLocked(m@),
        }
    }
}

impl ErrorView {
    /// The text shown for the error.
    pub open spec fn message(self) -> Seq<char> {
        match self {
            ErrorView::Io(m) => "i/o error: "@ + m,
            ErrorView::Corruption(m) => "corruption: "@ + m,
            ErrorView::InvalidArgument(m) => "invalid argument: "@ + m,
            ErrorView::Conflict(m) => "transaction conflict: "@ + m,
            ErrorView::KeyIsLocked(m) => "key is locked (txn still in flight): "@ + m,
        }
    }
}

impl Error {
    /// A corruption error with this text.
    pub fn corruption(msg: &str) -> (e: Error)
        ensures
            e@ == ErrorView::Corruption(msg@),
    {
        Error::Corruption(text::owned(msg))
    }

    /// An invalid-argument error with this text.
    pub fn invalid(msg: &str) -> (e: Error)
        ensures
            e@ == ErrorView::InvalidArgument(msg@),
    {
        Error::InvalidArgument(text::owned(msg))
    }

    /// A conflict error with this text.
    pub fn conflict(msg: &str) -> (e: Error)
        ensures
            e@ == ErrorView::Conflict(msg@),
    {
        Error::Conflict(text::owned(msg))
    }

    /// The text shown for the error.
    pub fn message(&self) -> (r: String)
        ensures
            r@ == self@.message(),
    {
        let mut out: String = String::new();
        match self {
            Error::Io(m) => {
                out.push_str("i/o error: ");
                out.push_str(m.as_str());
            },
            Error::Corruption(m) => {
                out.push_str("corruption: ");
                out.push_str(m.as_str());
            },
            Error::InvalidArgument(m) => {
                out.push_str("invalid argument: ");
                out.push_str(m.as_str());
            },
            Error::Conflict(m) => {
                out.push_str("transaction conflict: ");
                out.push_str(m.as_str());
            },
            Error::KeyIsLocked(m) => {
                out.push_str("key is locked (txn still in flight): ");
                out.push_str(m.as_str());
            },
        }
        assert(out@ =~= self@.message());
        out
    }

    /// A copy of the error.
    pub fn dup(&self) -> (e: Error)
        ensures
            e@ == self@,
    {
        match self {
            Error::Io(m) => Error::Io(m.clone()),
            Error::Corruption(m) => Error::Corruption(m.clone()),
            Error::InvalidArgument(m) => Error::InvalidArgument(m.clone()),
            Error::Conflict(m) => Error::Conflict(m.clone()),
            Error::KeyIsLocked(m) => Error::KeyIsLocked(m.clone()),
        }
    }
}

} // verus!
