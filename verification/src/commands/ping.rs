//! The PING command: replies PONG and ignores its arguments.

use vstd::prelude::*;
use vstd::string::StringExecFns;
use crate::resp::{RESP, RespModel};
use crate::server::Server;
use crate::server_result::{ServerMessage, ServerValue};

verus! {

/// Replies PONG, touching nothing.
pub fn command(_server: &Server, _tokens: &Vec<String>) -> (msg: ServerMessage)
    ensures
        msg matches ServerMessage::Data(sv) && sv matches ServerValue::RESP(v) && v@
            == RespModel::SimpleString("PONG"@),
{
    ServerMessage::Data(ServerValue::RESP(RESP::SimpleString(String::from_str("PONG"))))
}

} // verus!
