//! The ways a page request can fail.

use crate::page::Record;
use vstd::prelude::*;

verus! {

/// Failure reported by the store that executes range and count queries.
#[derive(Debug, PartialEq, Eq)]
pub struct StoreError {
    pub message: String,
}

/// Why a page request produced no connection.
#[derive(Debug, PartialEq, Eq)]
pub enum PageError {
    /// The cursor token is malformed or of an unsupported version.
    InvalidCursor,
    /// The limit is not positive.
    InvalidArgument,
    /// The store failed; the request is not retried here.
    Store(StoreError),
}

/// Why a record asked for by identifier or by name was not returned.
#[derive(Clone, Copy, Debug, PartialEq, Eq, Structural)]
pub enum LookupError {
    /// The identifier is not twelve bytes written as hexadecimal digits.
    InvalidId,
    /// No record has the identifier or the name.
    NotFound,
}

/// Why a write was refused.
#[derive(Clone, Copy, Debug, PartialEq, Eq, Structural)]
pub enum WriteError {
    /// The identifier is not twelve bytes written as hexadecimal digits.
    InvalidId,
    /// No record has the identifier.
    NotFound,
    /// Another record already has the name.
    AlreadyTaken,
}

/// The failure of a cached computation, handed to the caller that ran it
/// and to every caller that waited for it.
#[derive(Debug, PartialEq, Eq)]
pub struct CacheComputeError<E> {
    pub cause: E,
}


impl Record for StoreError {
    fn duplicate(&self) -> (r: StoreError) {
        StoreError { message: self.message.clone() }
    }
}

impl Record for PageError {
    fn duplicate(&self) -> (r: PageError) {
        match self {
            PageError::InvalidCursor => PageError::InvalidCursor,
            PageError::InvalidArgument => PageError::InvalidArgument,
            PageError::Store(e) => PageError::Store(e.duplicate()),
        }
    }
}

impl Record for String {
    fn duplicate(&self) -> (r: String) {
        self.clone()
    }
}

} // verus!
