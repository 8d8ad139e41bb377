//! Errors for operations on the key-value store.

use vstd::prelude::*;

verus! {

/// The result of an operation on the store.
pub type KvsResult<T> = Result<T, Error>;

/// Types of error that an operation on the store can report.
#[derive(Debug, Clone, Copy, PartialEq, Eq, Structural)]
pub enum ErrorKind {
    /// Operation on a non-existent key.
    KeyNotFound,
    /// Faulty on-disk log.
    CorruptedLog,
    /// Faulty in-memory index.
    CorruptedIndex,
    /// An unexpected message from the network was received.
    InvalidNetworkMessage,
    /// Wrong engine backend provided when constructing a key-value store.
    UnsupportedKvsEngineBackend,
    /// Provided engine backend is different from the one used in the data directory.
    MismatchedKvsEngineBackend,
    /// Error that originated from the remote server.
    ServerError,
}

impl ErrorKind {
    /// A human-readable description of the error kind.
    pub fn as_str(&self) -> (r: &'static str)
        ensures
            r@ == self.spec_str(),
    {
        match *self {
            Self::KeyNotFound => "Key not found",
            Self::CorruptedLog => "Corrupted on-disk log",
            Self::CorruptedIndex => "Corrupted in-memory index",
            Self::InvalidNetworkMessage => "Received an invalid network message",
            Self::UnsupportedKvsEngineBackend => "Unsupported key-value store engine backend",
            Self::MismatchedKvsEngineBackend => "Mismatched key-value store engine backend",
            Self::ServerError => "Remote server error",
        }
    }

    /// The description as a sequence of characters, for use in contracts.
    pub open spec fn spec_str(self) -> Seq<char> {
        match self {
            Self::KeyNotFound => "Key not found"@,
            Self::CorruptedLog => "Corrupted on-disk log"@,
            Self::CorruptedIndex => "Corrupted in-memory index"@,
            Self::InvalidNetworkMessage => "Received an invalid network message"@,
            Self::UnsupportedKvsEngineBackend => "Unsupported key-value store engine backend"@,
            Self::MismatchedKvsEngineBackend => "Mismatched key-value store engine backend"@,
            Self::ServerError => "Remote server error"@,
        }
    }
}

/// Library error: the kind of fault that stopped an operation.
#[derive(Debug, Clone, Copy, PartialEq, Eq, Structural)]
pub struct Error {
    kind: ErrorKind,
}

impl Error {
    /// Create a new error of the given kind.
    pub fn new(kind: ErrorKind) -> (r: Error)
        ensures
            r.spec_kind() == kind,
    {
        Error { kind }
    }

    /// The kind of this error.
    pub fn kind(&self) -> (r: ErrorKind)
        ensures
            r == self.spec_kind(),
    {
        self.kind
    }

    /// The kind, for use in contracts.
    pub closed spec fn spec_kind(self) -> ErrorKind {
        self.kind
    }

    /// A human-readable description of the error.
    pub fn message(&self) -> (r: &'static str)
        ensures
            r@ == self.spec_kind().spec_str(),
    {
        self.kind.as_str()
    }
}

} // verus!
