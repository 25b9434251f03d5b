//! Error values reported by the storage engine's command handlers.

use vstd::prelude::*;
use vstd::string::StringExecFns;

verus! {

/// A command-level failure.  Each variant quotes the text it is about, so
/// a client sees which input was rejected.
#[derive(Debug, PartialEq)]
pub enum StorageError {
    /// The engine failed while reading or writing; the command is quoted.
    CommandInternalError(String),
    /// The command name is not one the engine knows.
    CommandNotAvailable(String),
    /// The command or its arguments are malformed; the text is quoted.
    CommandSyntaxError(String),
}

pub type StorageResult<T> = Result<T, StorageError>;


/// The text a storage error prints.
pub open spec fn storage_error_text(e: StorageError) -> Seq<char> {
    match e {
        StorageError::CommandInternalError(s) => "Internal error while processing "@ + s@ + "!"@,
        StorageError::CommandNotAvailable(s) => "Command "@ + s@ + " not available!"@,
        StorageError::CommandSyntaxError(s) => "Syntax error while processing "@ + s@ + "!"@,
    }
}

impl StorageError {
    /// Renders the error for a log line.
    pub fn message(&self) -> (r: String)
        ensures
            r@ == storage_error_text(*self),
    {
        match self {
            StorageError::CommandInternalError(s) => {
                let mut r = String::from_str("Internal error while processing ");
                r.append(s.as_str());
                r.append("!");
                r
            },
            StorageError::CommandNotAvailable(s) => {
                let mut r = String::from_str("Command ");
                r.append(s.as_str());
                r.append(" not available!");
                r
            },
            StorageError::CommandSyntaxError(s) => {
                let mut r = String::from_str("Syntax error while processing ");
                r.append(s.as_str());
                r.append("!");
                r
            },
        }
    }
}

} // verus!
