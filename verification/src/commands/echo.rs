//! The ECHO command: replies with its single argument.

use vstd::prelude::*;
use crate::resp::{RESP, RespModel};
use crate::server::Server;
use crate::server_result::{ServerMessage, ServerValue};

verus! {

/// Replies with the first argument as a bulk string.  An ECHO without an
/// argument is ruled out by the caller, as the arity is never checked
/// here.
pub fn command(_server: &Server, tokens: &Vec<String>) -> (msg: ServerMessage)
    requires
        tokens@.len() >= 2,
    ensures
        msg matches ServerMessage::Data(sv) && sv matches ServerValue::RESP(v) && v@
            == RespModel::BulkString(tokens.deep_view()[1]),
{
    proof {
        assert(tokens.deep_view()[1] == tokens@[1]@);
    }
    ServerMessage::Data(ServerValue::RESP(RESP::BulkString(tokens[1].clone())))
}

} // verus!
