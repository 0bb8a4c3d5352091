//! Where records go, and how an append can fail.
use vstd::prelude::*;

verus! {

/// The log file used when the caller names none: in the app's private storage.
pub const DEFAULT_LOG_PATH: &'static str = "/data/data/com.example.myspamfilterapp/files/spam_calls.log";

/// The file that an append writes to: the caller's path verbatim, else the default.
pub fn log_path(path: Option<&str>) -> (r: String)
    ensures
        r@ == match path {
            Some(p) => p@,
            None => DEFAULT_LOG_PATH@,
        },
{
    match path {
        Some(p) => p.to_owned(),
        None => DEFAULT_LOG_PATH.to_owned(),
    }
}

/// Why an append failed.
#[derive(Clone, Copy, Debug, PartialEq, Eq, Structural)]
pub enum LogError {
    /// The text handed over could not be read as a string.
    StringConversion,
    /// The file could not be opened or created for appending.
    FileOpen,
    /// The record could not be written in full.
    Write,
}

/// The status that the caller receives: 0 on success, else one code per error kind.
pub open spec fn status_of(outcome: Result<(), LogError>) -> i32 {
    match outcome {
        Ok(()) => 0,
        Err(LogError::StringConversion) => 1,
        Err(LogError::FileOpen) => 2,
        Err(LogError::Write) => 3,
    }
}

/// The status code of an append's outcome.
pub fn status_code(outcome: &Result<(), LogError>) -> (r: i32)
    ensures
        r == status_of(*outcome),
{
    match outcome {
        Ok(()) => 0,
        Err(LogError::StringConversion) => 1,
        Err(LogError::FileOpen) => 2,
        Err(LogError::Write) => 3,
    }
}

} // verus!
