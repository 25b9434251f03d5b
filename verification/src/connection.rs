//! The connection boundary's error value.  The socket handling itself
//! lives outside the library; this is the error a connection task reports
//! before it closes.

use vstd::prelude::*;
use vstd::string::StringExecFns;
use crate::server_result::{server_error_text, ServerError};

verus! {

/// Why a connection was closed from the server side.
#[derive(Debug)]
pub enum ConnectionError {
    ServerError(ServerError),
}

impl ConnectionError {
    /// Renders the error for a log line.
    pub fn message(&self) -> (r: String)
        ensures
            self matches ConnectionError::ServerError(e) ==> r@ == "Server error: "@
                + server_error_text(*e),
    {
        match self {
            ConnectionError::ServerError(e) => {
                let mut r = String::from_str("Server error: ");
                r.append(e.message().as_str());
                r
            },
        }
    }
}

} // verus!
