//! Reply values the dispatcher sends back to a connection.

use vstd::prelude::*;
use vstd::string::StringExecFns;
use crate::resp::RESP;

verus! {

/// A request-level or command-level failure, reported to the client while
/// the connection stays open.
#[derive(Debug, PartialEq)]
pub enum ServerError {
    /// The engine failed while executing the quoted command.
    CommandInternalError(String),
    /// The quoted command name is not known.
    CommandNotAvailable(String),
    /// The quoted command text is malformed.
    CommandSyntaxError(String),
    /// The decoded value is not an array of bulk strings.
    IncorrectData,
    /// The server has no storage engine to run commands against.
    StorageNotInitialised,
}

/// A successful reply payload.
#[derive(Debug, PartialEq)]
pub enum ServerValue {
    RESP(RESP),
}

/// Exactly one of these is sent back for each request.
#[derive(Debug, PartialEq)]
pub enum ServerMessage {
    Data(ServerValue),
    Error(ServerError),
}


/// The text a server error prints.
pub open spec fn server_error_text(e: ServerError) -> Seq<char> {
    match e {
        ServerError::CommandInternalError(s) => "Internal error while processing "@ + s@,
        ServerError::CommandNotAvailable(s) => "Command "@ + s@ + " not available."@,
        ServerError::CommandSyntaxError(s) => "Syntax error while processing "@ + s@,
        ServerError::IncorrectData => "Data received from stream is incorrect."@,
        ServerError::StorageNotInitialised => "Storage has not been initialised."@,
    }
}

impl ServerError {
    /// Renders the error for a log line or a wire error reply.
    pub fn message(&self) -> (r: String)
        ensures
            r@ == server_error_text(*self),
    {
        match self {
            ServerError::CommandInternalError(s) => {
                let mut r = String::from_str("Internal error while processing ");
                r.append(s.as_str());
                r
            },
            ServerError::CommandNotAvailable(s) => {
                let mut r = String::from_str("Command ");
                r.append(s.as_str());
                r.append(" not available.");
                r
            },
            ServerError::CommandSyntaxError(s) => {
                let mut r = String::from_str("Syntax error while processing ");
                r.append(s.as_str());
                r
            },
            ServerError::IncorrectData => String::from_str(
                "Data received from stream is incorrect.",
            ),
            ServerError::StorageNotInitialised => String::from_str(
                "Storage has not been initialised.",
            ),
        }
    }
}

} // verus!
