//! The dispatcher's state and its request-processing step.
//!
//! The server owns the storage engine exclusively; one task drives it, so
//! every mutation is serialized by construction.  `process_request` is the
//! body of that task's request branch: it validates the decoded value,
//! routes the command, and returns the one reply to send back.  The
//! channels, sockets and the timer around it live outside the library.

use vstd::prelude::*;
use crate::commands;
use crate::commands::get::get_reply_post;
use crate::commands::set::set_reply_post;
use crate::resp::{RESP, RespModel, resp_view, views_of};
use crate::server_result::{ServerError, ServerMessage};
use crate::storage::Storage;
use crate::text::{ci_equal, eq_ignore_case};

verus! {

/// The dispatcher's state: the storage engine, once one has been set.
pub struct Server {
    pub storage: Option<Storage>,
}

impl Server {
    /// The engine it holds, if any, is well formed.
    pub open spec fn wf(self) -> bool {
        self.storage matches Some(s) ==> s.wf()
    }

    /// A server with no storage engine yet.
    pub fn new() -> (r: Server)
        ensures
            r.storage is None,
            r.wf(),
    {
        Server { storage: None }
    }

    /// Hands the server a storage engine to own.
    pub fn set_storage(self, storage: Storage) -> (r: Server)
        ensures
            r.storage == Some(storage),
    {
        let mut s = self;
        s.storage = Some(storage);
        s
    }

    /// Runs the active-expiry sweep on the engine, if one is set.
    pub fn expire_keys(&mut self)
        requires
            old(self).wf(),
        ensures
            final(self).wf(),
            old(self).storage is None ==> *final(self) == *old(self),
            old(self).storage matches Some(s) ==> final(self).storage matches Some(s2)
                && exists|now: u64| s2@ == crate::storage::spec_expire_state(s@, now),
    {
        match &mut self.storage {
            None => {},
            Some(storage) => {
                storage.expire_keys();
            },
        }
    }
}

/// The command tokens a request value carries: defined exactly when the
/// value is an array of bulk strings.
pub open spec fn tokens_of(m: RespModel) -> Option<Seq<Seq<char>>> {
    match m {
        RespModel::Array(items) => if forall|i: int|
            0 <= i < items.len() ==> (#[trigger] items[i]) is BulkString {
            Some(
                Seq::new(
                    items.len(),
                    |i: int|
                        if 0 <= i < items.len() && items[i] is BulkString {
                            items[i]->BulkString_0
                        } else {
                            Seq::empty()
                        },
                ),
            )
        } else {
            None
        },
        _ => None,
    }
}

/// Handles one decoded request value against the server, returning the one
/// reply to write back.  A value that is not an array of bulk strings gets
/// an `IncorrectData` error and never touches the storage.
pub fn process_request(value: &RESP, server: &mut Server) -> (msg: ServerMessage)
    requires
        old(server).wf(),
        tokens_of(value@) matches Some(toks) ==> toks.len() >= 1 && (ci_equal(toks[0], "echo"@)
            ==> toks.len() >= 2),
    ensures
        final(server).wf(),
        ({
            let t = tokens_of(value@);
            match t {
                None => msg == ServerMessage::Error(ServerError::IncorrectData) && *final(server)
                    == *old(server),
                Some(toks) => ({
                    if ci_equal(toks[0], "echo"@) {
                        *final(server) == *old(server) && (msg matches ServerMessage::Data(sv)
                            && sv matches crate::server_result::ServerValue::RESP(v) && v@
                            == RespModel::BulkString(toks[1]))
                    } else if ci_equal(toks[0], "get"@) {
                        get_reply_post(*old(server), *final(server), toks, msg)
                    } else if ci_equal(toks[0], "ping"@) {
                        *final(server) == *old(server) && (msg matches ServerMessage::Data(sv)
                            && sv matches crate::server_result::ServerValue::RESP(v) && v@
                            == RespModel::SimpleString("PONG"@))
                    } else if ci_equal(toks[0], "set"@) {
                        set_reply_post(*old(server), *final(server), toks, msg)
                    } else {
                        *final(server) == *old(server) && (msg matches ServerMessage::Error(e)
                            && e matches ServerError::CommandNotAvailable(s) && s@ == toks[0])
                    }
                }),
            }
        }),
{
    let elements = match value {
        RESP::Array(v) => v,
        _ => {
            return ServerMessage::Error(ServerError::IncorrectData);
        },
    };
    proof {
        assert(*value == RESP::Array(*elements));
        assert(resp_view(*value)->Array_0 =~= views_of(elements@));
    }
    let mut command: Vec<String> = Vec::new();
    let mut i: usize = 0;
    while i < elements.len()
        invariant
            i <= elements@.len(),
            *server == *old(server),
            old(server).wf(),
            *value == RESP::Array(*elements),
            resp_view(*value)->Array_0 == views_of(elements@),
            resp_view(*value) is Array,
            forall|j: int| 0 <= j < i ==> (#[trigger] views_of(elements@)[j]) is BulkString,
            command.deep_view().len() == i,
            forall|j: int|
                0 <= j < i ==> #[trigger] command.deep_view()[j] == views_of(
                    elements@,
                )[j]->BulkString_0,
        decreases elements@.len() - i,
    {
        let ghost dv_before = command.deep_view();
        let ghost seq_before = command@;
        match &elements[i] {
            RESP::BulkString(s) => {
                command.push(s.clone());
                proof {
                    assert(views_of(elements@)[i as int] == resp_view(elements@[i as int]));
                    assert(command.deep_view().len() == command@.len());
                    assert(command.deep_view()[i as int] == command@[i as int]@);
                    assert(forall|k: int|
                        0 <= k < dv_before.len() ==> #[trigger] command@[k] == seq_before[k]);
                    assert(forall|k: int|
                        0 <= k < dv_before.len() ==> #[trigger] command.deep_view()[k]
                            == dv_before[k]);
                }
            },
            _ => {
                proof {
                    assert(views_of(elements@)[i as int] == resp_view(elements@[i as int]));
                    assert(!(views_of(elements@)[i as int] is BulkString));
                    assert(tokens_of(resp_view(*value)) is None);
                }
                return ServerMessage::Error(ServerError::IncorrectData);
            },
        }
        i = i + 1;
    }
    proof {
        let items = views_of(elements@);
        assert(forall|j: int| 0 <= j < items.len() ==> (#[trigger] items[j]) is BulkString);
        assert(tokens_of(resp_view(*value)) matches Some(toks) && toks =~= command.deep_view());
    }
    if eq_ignore_case(&command[0], "echo") {
        commands::echo::command(server, &command)
    } else if eq_ignore_case(&command[0], "get") {
        commands::get::command(server, &command)
    } else if eq_ignore_case(&command[0], "ping") {
        commands::ping::command(server, &command)
    } else if eq_ignore_case(&command[0], "set") {
        commands::set::command(server, &command)
    } else {
        ServerMessage::Error(ServerError::CommandNotAvailable(command[0].clone()))
    }
}

} // verus!
