//! The GET command at the server boundary: validates the storage and the
//! arity, then reads the key.

use vstd::prelude::*;
use crate::resp::{RESP, RespModel};
use crate::server::Server;
use crate::server_result::{ServerError, ServerMessage, ServerValue};
use crate::storage::{now_millis, spec_get_state, spec_get_value};
use crate::text::{join_spec, join_with_spaces};

verus! {

/// What a GET reply is: an error when no storage is set or the arity is
/// wrong, otherwise the read happens at some instant and the reply carries
/// the value or null.
pub open spec fn get_reply_post(
    pre: Server,
    post: Server,
    c: Seq<Seq<char>>,
    msg: ServerMessage,
) -> bool {
    match pre.storage {
        None => post == pre && msg == ServerMessage::Error(ServerError::StorageNotInitialised),
        Some(s) => ({
            &&& post.storage matches Some(s2)
            &&& if c.len() != 2 {
                s2 == s && (msg matches ServerMessage::Error(e)
                    && e matches ServerError::CommandSyntaxError(t) && t@ == join_spec(c, " "@))
            } else {
                exists|now: u64|
                    #![auto]
                    {
                        &&& s2@ == spec_get_state(s@, c[1], now)
                        &&& match spec_get_value(s@, c[1], now) {
                            Some(vs) => msg matches ServerMessage::Data(sv)
                                && sv matches ServerValue::RESP(v) && v@ == RespModel::BulkString(
                                vs,
                            ),
                            None => msg matches ServerMessage::Data(sv)
                                && sv matches ServerValue::RESP(v) && v@ == RespModel::Null,
                        }
                    }
            }
        }),
    }
}

/// Reads the named key from the server's storage.
pub fn command(server: &mut Server, tokens: &Vec<String>) -> (msg: ServerMessage)
    requires
        old(server).wf(),
    ensures
        final(server).wf(),
        get_reply_post(*old(server), *final(server), tokens.deep_view(), msg),
{
    proof {
        assert(tokens.deep_view().len() == tokens@.len());
        if tokens@.len() >= 2 {
            assert(tokens.deep_view()[1] == tokens@[1]@);
        }
    }
    match &mut server.storage {
        None => ServerMessage::Error(ServerError::StorageNotInitialised),
        Some(storage) => {
            if tokens.len() != 2 {
                ServerMessage::Error(
                    ServerError::CommandSyntaxError(join_with_spaces(tokens)),
                )
            } else {
                let now = now_millis();
                match storage.get_at(tokens[1].clone(), now) {
                    Ok(Some(v)) => ServerMessage::Data(ServerValue::RESP(RESP::BulkString(v))),
                    Ok(None) => ServerMessage::Data(ServerValue::RESP(RESP::Null)),
                    Err(_) => ServerMessage::Error(
                        ServerError::CommandInternalError(join_with_spaces(tokens)),
                    ),
                }
            }
        },
    }
}

} // verus!
