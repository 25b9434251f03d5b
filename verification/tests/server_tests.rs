use miniredis::resp::RESP;
use miniredis::server::{process_request, Server};
use miniredis::server_result::{ServerError, ServerMessage, ServerValue};
use miniredis::set::SetArgs;
use miniredis::storage::Storage;

#[test]
fn server_test_create_new() {
    let server: Server = Server::new();
    match server.storage {
        Some(_) => panic!(),
        None => (),
    };
}

#[test]
fn test_set_storage() {
    let storage = Storage::new();
    let server: Server = Server::new().set_storage(storage);
    match server.storage {
        Some(_) => (),
        None => panic!(),
    };
}

#[test]
fn test_process_request_not_array() {
    let storage = Storage::new();
    let mut server = Server::new().set_storage(storage);
    let value = RESP::BulkString(String::from("PING"));
    let reply = process_request(&value, &mut server);
    assert_eq!(reply, ServerMessage::Error(ServerError::IncorrectData));
}

#[test]
fn test_process_request_not_bulkstrings() {
    let storage = Storage::new();
    let mut server = Server::new().set_storage(storage);
    let value = RESP::Array(vec![RESP::SimpleString(String::from("PING"))]);
    let reply = process_request(&value, &mut server);
    assert_eq!(reply, ServerMessage::Error(ServerError::IncorrectData));
}

#[test]
fn test_process_request_echo() {
    let storage = Storage::new();
    let mut server = Server::new().set_storage(storage);
    let value = RESP::Array(vec![
        RESP::BulkString(String::from("ECHO")),
        RESP::BulkString(String::from("42")),
    ]);
    let reply = process_request(&value, &mut server);
    assert_eq!(
        reply,
        ServerMessage::Data(ServerValue::RESP(RESP::BulkString(String::from("42"))))
    );
}

#[test]
fn echo_test_command() {
    let server = Server::new();
    let cmd = vec![String::from("echo"), String::from("hi")];
    let reply = miniredis::commands::echo::command(&server, &cmd);
    assert_eq!(
        reply,
        ServerMessage::Data(ServerValue::RESP(RESP::BulkString(String::from("hi"))))
    );
}

#[test]
fn get_test_command() {
    let mut storage = Storage::new();
    storage
        .set(String::from("key"), String::from("value"), SetArgs::new())
        .unwrap();
    let mut server = Server::new().set_storage(storage);
    let cmd = vec![String::from("get"), String::from("key")];
    let reply = miniredis::commands::get::command(&mut server, &cmd);
    assert_eq!(
        reply,
        ServerMessage::Data(ServerValue::RESP(RESP::BulkString(String::from("value"))))
    );
}

#[test]
fn test_storage_not_initialised() {
    let mut server = Server::new();
    let cmd = vec![String::from("get"), String::from("key")];
    let reply = miniredis::commands::get::command(&mut server, &cmd);
    assert_eq!(reply, ServerMessage::Error(ServerError::StorageNotInitialised));
}

#[test]
fn test_wrong_syntax() {
    let storage = Storage::new();
    let mut server = Server::new().set_storage(storage);
    let cmd = vec![String::from("get")];
    let reply = miniredis::commands::get::command(&mut server, &cmd);
    assert_eq!(
        reply,
        ServerMessage::Error(ServerError::CommandSyntaxError("get".to_string()))
    );
}

#[test]
fn ping_test_command_ping() {
    let cmd = vec![String::from("ping")];
    let server = Server::new();
    let reply = miniredis::commands::ping::command(&server, &cmd);
    assert_eq!(
        reply,
        ServerMessage::Data(ServerValue::RESP(RESP::SimpleString(String::from("PONG"))))
    );
}

#[test]
fn test_command_ping_uppercase() {
    let cmd = vec![String::from("PING")];
    let server = Server::new();
    let reply = miniredis::commands::ping::command(&server, &cmd);
    assert_eq!(
        reply,
        ServerMessage::Data(ServerValue::RESP(RESP::SimpleString(String::from("PONG"))))
    );
}

#[test]
fn test_process_request_mixed_case_name() {
    let storage = Storage::new();
    let mut server = Server::new().set_storage(storage);
    let value = RESP::Array(vec![RESP::BulkString(String::from("PiNg"))]);
    let reply = process_request(&value, &mut server);
    assert_eq!(
        reply,
        ServerMessage::Data(ServerValue::RESP(RESP::SimpleString(String::from("PONG"))))
    );
}

#[test]
fn test_process_request_unknown_command() {
    let storage = Storage::new();
    let mut server = Server::new().set_storage(storage);
    let value = RESP::Array(vec![RESP::BulkString(String::from("flushall"))]);
    let reply = process_request(&value, &mut server);
    assert_eq!(
        reply,
        ServerMessage::Error(ServerError::CommandNotAvailable(String::from("flushall")))
    );
}
