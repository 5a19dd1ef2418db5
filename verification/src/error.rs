//! The library's error type.

use vstd::prelude::*;

use crate::text::{decimal, push_decimal, push_str};

verus! {

/// Everything that can go wrong in the limiter.
///
/// The variants that wrap an I/O or JSON failure carry that failure's message;
/// the caller that did the I/O keeps the original error value.
#[derive(Debug)]
pub enum FlintError {
    /// A read or write of the data directory failed.
    Io(String),
    /// A value could not be encoded or decoded as JSON.
    Json(String),
    /// A duration, rate, cost or key was refused.
    InvalidDuration(String),
    /// An algorithm name that the limiter does not know.
    UnsupportedAlgorithm(String),
    /// Another writer holds the data directory.
    DataDirLocked { path: String },
    /// A check or reset named a key that has no limit.
    LimitNotConfigured(String),
    /// The snapshot was written by an unknown format version.
    UnsupportedSnapshot(u32),
    /// A record in the middle of the log is not valid JSON.
    CorruptLog { line: usize, message: String },
    /// A checksum or version check of the stored data failed.
    StorageIntegrity(String),
}

/// The text that describes an error, as the limiter reports it.
pub open spec fn error_message(e: FlintError) -> Seq<char> {
    match e {
        FlintError::Io(m) => "io error: "@ + m@,
        FlintError::Json(m) => "json error: "@ + m@,
        FlintError::InvalidDuration(m) => "invalid duration: "@ + m@,
        FlintError::UnsupportedAlgorithm(m) => "unsupported algorithm: "@ + m@,
        FlintError::DataDirLocked { path } => "data directory is already locked: "@ + path@,
        FlintError::LimitNotConfigured(m) => "limit is not configured: "@ + m@,
        FlintError::UnsupportedSnapshot(v) => "unsupported snapshot format version: "@ + decimal(
            v as nat,
        ),
        FlintError::CorruptLog { line, message } => "corrupt log at line "@ + decimal(line as nat)
            + ": "@ + message@,
        FlintError::StorageIntegrity(m) => "storage integrity error: "@ + m@,
    }
}

impl FlintError {
    /// The text that describes this error (see [`error_message`]).
    pub fn message(&self) -> (res: String)
        ensures
            res@ == error_message(*self),
    {
        let mut out = String::new();
        assert(out@ =~= Seq::<char>::empty());
        match self {
            FlintError::Io(m) => {
                push_str(&mut out, "io error: ");
                push_str(&mut out, m.as_str());
            },
            FlintError::Json(m) => {
                push_str(&mut out, "json error: ");
                push_str(&mut out, m.as_str());
            },
            FlintError::InvalidDuration(m) => {
                push_str(&mut out, "invalid duration: ");
                push_str(&mut out, m.as_str());
            },
            FlintError::UnsupportedAlgorithm(m) => {
                push_str(&mut out, "unsupported algorithm: ");
                push_str(&mut out, m.as_str());
            },
            FlintError::DataDirLocked { path } => {
                push_str(&mut out, "data directory is already locked: ");
                push_str(&mut out, path.as_str());
            },
            FlintError::LimitNotConfigured(m) => {
                push_str(&mut out, "limit is not configured: ");
                push_str(&mut out, m.as_str());
            },
            FlintError::UnsupportedSnapshot(v) => {
                push_str(&mut out, "unsupported snapshot format version: ");
                push_decimal(&mut out, *v as u64);
            },
            FlintError::CorruptLog { line, message } => {
                push_str(&mut out, "corrupt log at line ");
                push_decimal(&mut out, *line as u64);
                push_str(&mut out, ": ");
                push_str(&mut out, message.as_str());
            },
            FlintError::StorageIntegrity(m) => {
                push_str(&mut out, "storage integrity error: ");
                push_str(&mut out, m.as_str());
            },
        }
        assert(out@ =~= error_message(*self));
        out
    }
}

} // verus!
