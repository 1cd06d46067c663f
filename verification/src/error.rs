use std::path::PathBuf;
use vstd::prelude::*;

verus! {

/// `std::io::Error`, carried through as an opaque value.
#[verifier::external_type_specification]
#[verifier::external_body]
pub struct ExIoError(std::io::Error);

/// `std::path::PathBuf`, carried through as an opaque value.
#[verifier::external_type_specification]
#[verifier::external_body]
pub struct ExPathBuf(PathBuf);

/// Every way an operation of the library can fail.
#[derive(Debug)]
pub enum FastRegexError {
    Io(std::io::Error),
    Glob(String),
    RegexCompile(String),
    CorruptIndex(String),
    InvalidRequest(String),
    Timeout { request_id: Option<String>, timeout_ms: u64 },
    Utf8 { path: PathBuf, message: String },
    RebuildAlreadyRunning,
    Internal(String),
}

impl From<std::io::Error> for FastRegexError {
    /// An I/O failure, carried as it is.
    fn from(e: std::io::Error) -> (r: Self) {
        FastRegexError::Io(e)
    }
}

impl vstd::std_specs::convert::FromSpecImpl<std::io::Error> for FastRegexError {
    open spec fn obeys_from_spec() -> bool {
        true
    }

    open spec fn from_spec(v: std::io::Error) -> Self {
        FastRegexError::Io(v)
    }
}

} // verus!
