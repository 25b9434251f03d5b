//! End-to-end scenarios: request bytes in, reply bytes out, through the
//! codec, the dispatcher and the storage engine, with only the sockets and
//! channels left out.

use miniredis::resp::{bytes_to_resp, resp_to_bytes};
use miniredis::server::{process_request, Server};
use miniredis::server_result::{ServerError, ServerMessage, ServerValue};
use miniredis::set::{KeyExpiry, SetArgs};
use miniredis::storage::Storage;

fn handle(server: &mut Server, request: &[u8]) -> ServerMessage {
    let buffer = request.to_vec();
    let mut index: usize = 0;
    let value = bytes_to_resp(&buffer, &mut index).expect("request frame must decode");
    assert_eq!(index, buffer.len());
    process_request(&value, server)
}

fn reply_bytes(msg: ServerMessage) -> Vec<u8> {
    match msg {
        ServerMessage::Data(ServerValue::RESP(v)) => resp_to_bytes(&v),
        ServerMessage::Error(e) => panic!("expected a data reply, got {:?}", e),
    }
}

#[test]
fn scenario_ping() {
    let mut server = Server::new().set_storage(Storage::new());
    let reply = reply_bytes(handle(&mut server, b"*1\r\n$4\r\nPING\r\n"));
    assert_eq!(reply, b"+PONG\r\n".to_vec());
}

#[test]
fn scenario_echo() {
    let mut server = Server::new().set_storage(Storage::new());
    let reply = reply_bytes(handle(&mut server, b"*2\r\n$4\r\nECHO\r\n$2\r\nhi\r\n"));
    assert_eq!(reply, b"$2\r\nhi\r\n".to_vec());
}

#[test]
fn scenario_set_then_get() {
    let mut server = Server::new().set_storage(Storage::new());
    let set_reply = reply_bytes(handle(
        &mut server,
        b"*3\r\n$3\r\nSET\r\n$3\r\nkey\r\n$5\r\nvalue\r\n",
    ));
    assert_eq!(set_reply, b"+OK\r\n".to_vec());
    let get_reply = reply_bytes(handle(&mut server, b"*2\r\n$3\r\nGET\r\n$3\r\nkey\r\n"));
    assert_eq!(get_reply, b"$5\r\nvalue\r\n".to_vec());
}

#[test]
fn scenario_get_missing_key() {
    let mut server = Server::new().set_storage(Storage::new());
    let reply = reply_bytes(handle(&mut server, b"*2\r\n$3\r\nGET\r\n$7\r\nmissing\r\n"));
    assert_eq!(reply, b"$-1\r\n".to_vec());
}

#[test]
fn scenario_expired_key_reads_as_null() {
    // The SET option parser keeps the captured gap of accepting only NX on
    // the wire, so the time-to-live is given through the storage API, and
    // the instants are explicit rather than slept through.
    let mut storage = Storage::new();
    storage
        .set_at(
            String::from("key"),
            String::from("value"),
            SetArgs {
                expiry: Some(KeyExpiry::PX(50)),
                existence: None,
                get: false,
            },
            10_000,
        )
        .unwrap();
    let after_wait = storage.get_at(String::from("key"), 10_100).unwrap();
    assert_eq!(after_wait, None);
    let mut server = Server::new().set_storage(storage);
    let reply = reply_bytes(handle(&mut server, b"*2\r\n$3\r\nGET\r\n$3\r\nkey\r\n"));
    assert_eq!(reply, b"$-1\r\n".to_vec());
}

#[test]
fn scenario_storage_not_initialised() {
    let mut server = Server::new();
    let reply = handle(&mut server, b"*2\r\n$3\r\nGET\r\n$3\r\nkey\r\n");
    assert_eq!(reply, ServerMessage::Error(ServerError::StorageNotInitialised));
}

#[test]
fn scenario_replies_keep_request_order() {
    // One connection sends two requests; the dispatcher produces exactly
    // one reply per request, in request order.
    let mut server = Server::new().set_storage(Storage::new());
    let requests: Vec<&[u8]> = vec![
        b"*3\r\n$3\r\nSET\r\n$1\r\nk\r\n$2\r\nv1\r\n",
        b"*2\r\n$3\r\nGET\r\n$1\r\nk\r\n",
        b"*3\r\n$3\r\nSET\r\n$1\r\nk\r\n$2\r\nv2\r\n",
        b"*2\r\n$3\r\nGET\r\n$1\r\nk\r\n",
    ];
    let mut replies: Vec<Vec<u8>> = Vec::new();
    for request in requests {
        replies.push(reply_bytes(handle(&mut server, request)));
    }
    assert_eq!(
        replies,
        vec![
            b"+OK\r\n".to_vec(),
            b"$2\r\nv1\r\n".to_vec(),
            b"+OK\r\n".to_vec(),
            b"$2\r\nv2\r\n".to_vec(),
        ]
    );
}

#[test]
fn scenario_malformed_frame_is_rejected() {
    let mut server = Server::new().set_storage(Storage::new());
    let buffer = b"*1\r\n+PING\r\n".to_vec();
    let mut index: usize = 0;
    let value = bytes_to_resp(&buffer, &mut index).unwrap();
    let reply = process_request(&value, &mut server);
    assert_eq!(reply, ServerMessage::Error(ServerError::IncorrectData));
}

#[test]
fn scenario_set_with_nx_flag() {
    // The parser accepts the NX token; the engine keeps the captured gap of
    // never consulting it, so the write happens unconditionally.
    let mut server = Server::new().set_storage(Storage::new());
    let first = reply_bytes(handle(
        &mut server,
        b"*4\r\n$3\r\nSET\r\n$1\r\nk\r\n$2\r\nv1\r\n$2\r\nNX\r\n",
    ));
    assert_eq!(first, b"+OK\r\n".to_vec());
    let second = reply_bytes(handle(
        &mut server,
        b"*4\r\n$3\r\nSET\r\n$1\r\nk\r\n$2\r\nv2\r\n$2\r\nNX\r\n",
    ));
    assert_eq!(second, b"+OK\r\n".to_vec());
    let get = reply_bytes(handle(&mut server, b"*2\r\n$3\r\nGET\r\n$1\r\nk\r\n"));
    assert_eq!(get, b"$2\r\nv2\r\n".to_vec());
}

#[test]
fn scenario_set_with_unknown_option_is_syntax_error() {
    let mut server = Server::new().set_storage(Storage::new());
    let reply = handle(
        &mut server,
        b"*4\r\n$3\r\nSET\r\n$1\r\nk\r\n$1\r\nv\r\n$2\r\nPX\r\n",
    );
    assert_eq!(
        reply,
        ServerMessage::Error(ServerError::CommandSyntaxError(String::from("SET k v PX")))
    );
}
