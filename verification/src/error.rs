//! The library's error type.
use vstd::prelude::*;

verus! {

#[verifier::external_type_specification]
#[verifier::external_body]
pub struct ExIoError(std::io::Error);

#[verifier::external_type_specification]
#[verifier::external_body]
pub struct ExJsonError(serde_json::Error);

/// What an operation of the database can fail with.
#[derive(Debug)]
pub enum TsDbError {
    /// A system call failed.
    Io(std::io::Error),
    /// A JSON document could not be read or written.
    Serialization(serde_json::Error),
    /// The key is not known to the segment.
    KeyNotFound(String),
    /// The database holds no segment of that name.
    SegmentNotFound(String),
    /// The bucket time is not valid.
    InvalidBucketTime(u64),
    /// The sequence number is not valid.
    InvalidSeq(u64),
    /// A storage failure.
    Storage(String),
    /// An index failure.
    Index(String),
    /// A key map failure.
    KeyMap(String),
    /// The value block has no room for the sequence number.
    ValueBlockFull,
    /// The value file has no room for the position.
    FileSizeLimitExceeded,
    /// Persisted data is malformed.
    InvalidDataFormat(String),
}

/// Result type of the database's operations.
pub type Result<T> = core::result::Result<T, TsDbError>;

} // verus!
