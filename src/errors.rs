//! The errors of the store, its engines and its command parsing.
use vstd::prelude::*;

verus! {

/// A key that was asked for is not in the store.
#[derive(Debug, Clone, Copy, PartialEq, Eq, Structural)]
pub struct KvsNotFound;

impl KvsNotFound {
    /// The message of the error.
    pub fn message(&self) -> (r: String)
        ensures
            r@ == "Key not found"@,
    {
        String::from_str("Key not found")
    }
}

/// A name that is not one of the engines.
#[derive(Debug)]
pub struct InvalidEngine(pub String);

/// An error of a command against the log-structured engine.
#[derive(Debug, Clone, Copy, PartialEq, Eq, Structural)]
pub enum KvsCommandError {
    /// `remove` of a key that has no live value.
    KeyNotFound,
}

impl KvsCommandError {
    /// The message of the error.
    pub fn message(&self) -> (r: String)
        ensures
            r@ == "Key not found"@,
    {
        match self {
            KvsCommandError::KeyNotFound => String::from_str("Key not found"),
        }
    }
}

/// A data directory that holds the files of another engine: the engine asked
/// for, and the names of the foreign files found.
#[derive(Debug)]
pub struct MismatchEngine(pub String, pub Vec<String>);

/// Every error that the library reports.
#[derive(Debug)]
pub enum KvsError {
    /// A command failed; see the inner error.
    Command(KvsCommandError),
    /// A key was not found where the engine treats that as an error.
    NotFound(KvsNotFound),
    /// The bytes of a segment do not decode from `offset` on: the history is corrupt.
    Corrupt { segment: u64, offset: u64 },
    /// The segments handed to `open` do not have strictly ascending ids.
    SegmentOrder,
    /// The byte counters of the log would pass `u64::MAX`.
    LogFull,
    /// A record that the index points at is missing or is about another key.
    Inconsistent,
    /// The directory belongs to another engine.
    Mismatch(MismatchEngine),
    /// A stored value is not valid UTF-8.
    InvalidUtf8,
    /// The embedded engine reported an error.
    Sled(::sled::Error),
}

} // verus!
