//! The SET command at the server boundary: validates the storage, the
//! arity and the option tail, then writes the key.

use vstd::prelude::*;
use vstd::string::StringExecFns;
use crate::resp::{RESP, RespModel};
use crate::server::Server;
use crate::server_result::{ServerError, ServerMessage, ServerValue};
use crate::set::{parse_set_arguments, spec_parse_set};
use crate::storage::{now_millis, spec_set_state};
use crate::text::{join_spec, join_with_spaces};

verus! {

/// What a SET reply is: an error when no storage is set, when fewer than
/// three tokens arrive, or when the option tail is malformed — each
/// quoting the whole command — otherwise the write happens at some instant
/// and the reply is OK.
pub open spec fn set_reply_post(
    pre: Server,
    post: Server,
    c: Seq<Seq<char>>,
    msg: ServerMessage,
) -> bool {
    match pre.storage {
        None => post == pre && msg == ServerMessage::Error(ServerError::StorageNotInitialised),
        Some(s) => ({
            &&& post.storage matches Some(s2)
            &&& if c.len() < 3 {
                s2 == s && (msg matches ServerMessage::Error(e)
                    && e matches ServerError::CommandSyntaxError(t) && t@ == join_spec(c, " "@))
            } else {
                match spec_parse_set(c.skip(3)) {
                    None => s2 == s && (msg matches ServerMessage::Error(e)
                        && e matches ServerError::CommandSyntaxError(t) && t@ == join_spec(
                        c,
                        " "@,
                    )),
                    Some(args) => exists|now: u64|
                        #![auto]
                        {
                            &&& s2@ == spec_set_state(s@, c[1], c[2], args.expiry, now)
                            &&& msg matches ServerMessage::Data(sv)
                                && sv matches ServerValue::RESP(v) && v@
                                == RespModel::SimpleString("OK"@)
                        },
                }
            }
        }),
    }
}

/// Writes the named key into the server's storage.
pub fn command(server: &mut Server, tokens: &Vec<String>) -> (msg: ServerMessage)
    requires
        old(server).wf(),
    ensures
        final(server).wf(),
        set_reply_post(*old(server), *final(server), tokens.deep_view(), msg),
{
    proof {
        assert(tokens.deep_view().len() == tokens@.len());
        if tokens@.len() >= 3 {
            assert(tokens.deep_view()[1] == tokens@[1]@);
            assert(tokens.deep_view()[2] == tokens@[2]@);
        }
    }
    match &mut server.storage {
        None => ServerMessage::Error(ServerError::StorageNotInitialised),
        Some(storage) => {
            if tokens.len() < 3 {
                return ServerMessage::Error(
                    ServerError::CommandSyntaxError(join_with_spaces(tokens)),
                );
            }
            let key = tokens[1].clone();
            let value = tokens[2].clone();
            let mut tail: Vec<String> = Vec::new();
            let mut i: usize = 3;
            while i < tokens.len()
                invariant
                    3 <= i <= tokens@.len(),
                    tokens@.len() >= 3,
                    tail.deep_view() == tokens.deep_view().subrange(3, i as int),
                decreases tokens@.len() - i,
            {
                let ghost dv_before = tail.deep_view();
                let ghost seq_before = tail@;
                tail.push(tokens[i].clone());
                proof {
                    assert(tokens.deep_view()[i as int] == tokens@[i as int]@);
                    assert forall|k: int|
                        0 <= k < tail.deep_view().len() implies tail.deep_view()[k]
                        == tokens.deep_view().subrange(3, i as int + 1)[k] by {
                        assert(tail.deep_view()[k] == tail@[k]@);
                        if k < dv_before.len() {
                            assert(tail@[k] == seq_before[k]);
                            assert(dv_before[k] == seq_before[k]@);
                        }
                    }
                    assert(dv_before == tokens.deep_view().subrange(3, i as int));
                    assert(dv_before.len() == i - 3);
                    assert(tail@.len() == seq_before.len() + 1);
                    assert(tail.deep_view().len() == tail@.len());
                    assert(tail.deep_view().len() == tokens.deep_view().subrange(
                        3,
                        i as int + 1,
                    ).len());
                    assert(tail.deep_view() =~= tokens.deep_view().subrange(3, i as int + 1));
                }
                i = i + 1;
            }
            proof {
                assert(tokens.deep_view().subrange(3, tokens.deep_view().len() as int)
                    =~= tokens.deep_view().skip(3));
            }
            match parse_set_arguments(&tail) {
                Err(_) => ServerMessage::Error(
                    ServerError::CommandSyntaxError(join_with_spaces(tokens)),
                ),
                Ok(args) => {
                    let now = now_millis();
                    match storage.set_at(key, value, args, now) {
                        Ok(_) => ServerMessage::Data(
                            ServerValue::RESP(RESP::SimpleString(String::from_str("OK"))),
                        ),
                        Err(_) => ServerMessage::Error(
                            ServerError::CommandInternalError(join_with_spaces(tokens)),
                        ),
                    }
                },
            }
        },
    }
}

} // verus!
