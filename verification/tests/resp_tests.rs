use miniredis::resp::{bytes_to_resp, resp_to_bytes, RESP};
use miniredis::resp_result::RESPError;

fn assert_round_trip(v: RESP) {
    let bytes = resp_to_bytes(&v);
    let mut index: usize = 0;
    let decoded = bytes_to_resp(&bytes, &mut index).unwrap();
    assert_eq!(decoded, v);
    assert_eq!(index, bytes.len());
}

#[test]
fn test_round_trip_simple_string() {
    assert_round_trip(RESP::SimpleString(String::from("OK")));
    assert_round_trip(RESP::SimpleString(String::from("")));
}

#[test]
fn test_round_trip_error() {
    assert_round_trip(RESP::Error(String::from("ERR unknown")));
}

#[test]
fn test_round_trip_integer() {
    assert_round_trip(RESP::Integer(0));
    assert_round_trip(RESP::Integer(42));
    assert_round_trip(RESP::Integer(-7));
    assert_round_trip(RESP::Integer(i64::MAX));
    assert_round_trip(RESP::Integer(i64::MIN));
}

#[test]
fn test_round_trip_bulk_string() {
    assert_round_trip(RESP::BulkString(String::from("hello")));
    assert_round_trip(RESP::BulkString(String::from("")));
    assert_round_trip(RESP::BulkString(String::from("line\r\nbreak")));
    assert_round_trip(RESP::BulkString(String::from("caf\u{e9} \u{1F980}")));
}

#[test]
fn test_round_trip_null() {
    assert_round_trip(RESP::Null);
}

#[test]
fn test_round_trip_array() {
    assert_round_trip(RESP::Array(vec![]));
    assert_round_trip(RESP::Array(vec![
        RESP::BulkString(String::from("SET")),
        RESP::BulkString(String::from("key")),
        RESP::BulkString(String::from("value")),
    ]));
    assert_round_trip(RESP::Array(vec![
        RESP::Integer(1),
        RESP::Null,
        RESP::Array(vec![RESP::SimpleString(String::from("nested"))]),
    ]));
}

#[test]
fn test_encode_exact_bytes() {
    assert_eq!(
        resp_to_bytes(&RESP::SimpleString(String::from("PONG"))),
        b"+PONG\r\n".to_vec()
    );
    assert_eq!(resp_to_bytes(&RESP::BulkString(String::from("hi"))), b"$2\r\nhi\r\n".to_vec());
    assert_eq!(resp_to_bytes(&RESP::Null), b"$-1\r\n".to_vec());
    assert_eq!(resp_to_bytes(&RESP::Integer(-12)), b":-12\r\n".to_vec());
    assert_eq!(
        resp_to_bytes(&RESP::Array(vec![
            RESP::BulkString(String::from("ECHO")),
            RESP::BulkString(String::from("hi")),
        ])),
        b"*2\r\n$4\r\nECHO\r\n$2\r\nhi\r\n".to_vec()
    );
}

#[test]
fn test_decode_request_frame() {
    let buffer = b"*2\r\n$4\r\nECHO\r\n$2\r\nhi\r\n".to_vec();
    let mut index: usize = 0;
    let value = bytes_to_resp(&buffer, &mut index).unwrap();
    assert_eq!(
        value,
        RESP::Array(vec![
            RESP::BulkString(String::from("ECHO")),
            RESP::BulkString(String::from("hi")),
        ])
    );
    assert_eq!(index, buffer.len());
}

#[test]
fn test_decode_null_sentinels() {
    let mut index: usize = 0;
    assert_eq!(bytes_to_resp(&b"$-1\r\n".to_vec(), &mut index).unwrap(), RESP::Null);
    index = 0;
    assert_eq!(bytes_to_resp(&b"*-1\r\n".to_vec(), &mut index).unwrap(), RESP::Null);
}

#[test]
fn test_decode_wrong_type() {
    let mut index: usize = 0;
    assert_eq!(
        bytes_to_resp(&b"x\r\n".to_vec(), &mut index),
        Err(RESPError::WrongType)
    );
    assert_eq!(index, 0);
}

#[test]
fn test_decode_out_of_bounds_needs_more_bytes() {
    let mut index: usize = 0;
    assert_eq!(
        bytes_to_resp(&Vec::new(), &mut index),
        Err(RESPError::OutOfBounds(0))
    );
    assert_eq!(
        bytes_to_resp(&b"+PON".to_vec(), &mut index),
        Err(RESPError::OutOfBounds(4))
    );
    assert_eq!(
        bytes_to_resp(&b"$5\r\nab".to_vec(), &mut index),
        Err(RESPError::OutOfBounds(6))
    );
    assert_eq!(index, 0, "the cursor must not move on an incomplete frame");
}

#[test]
fn test_decode_parse_int_error() {
    let mut index: usize = 0;
    assert_eq!(
        bytes_to_resp(&b":abc\r\n".to_vec(), &mut index),
        Err(RESPError::ParseInt)
    );
    assert_eq!(
        bytes_to_resp(&b"$x\r\n".to_vec(), &mut index),
        Err(RESPError::ParseInt)
    );
    assert_eq!(
        bytes_to_resp(&b":99999999999999999999\r\n".to_vec(), &mut index),
        Err(RESPError::ParseInt)
    );
}

#[test]
fn test_decode_incorrect_length() {
    let mut index: usize = 0;
    assert_eq!(
        bytes_to_resp(&b"$-2\r\n".to_vec(), &mut index),
        Err(RESPError::IncorrectLength(-2))
    );
    assert_eq!(
        bytes_to_resp(&b"$2\r\nabc\r\n".to_vec(), &mut index),
        Err(RESPError::IncorrectLength(2))
    );
}

#[test]
fn test_decode_invalid_utf8() {
    let mut index: usize = 0;
    let mut buffer = b"$2\r\n".to_vec();
    buffer.push(0xff);
    buffer.push(0xfe);
    buffer.extend_from_slice(b"\r\n");
    assert_eq!(bytes_to_resp(&buffer, &mut index), Err(RESPError::FromUtf8));
}

#[test]
fn test_decode_two_frames_in_sequence() {
    let buffer = b"+first\r\n:2\r\n".to_vec();
    let mut index: usize = 0;
    let one = bytes_to_resp(&buffer, &mut index).unwrap();
    assert_eq!(one, RESP::SimpleString(String::from("first")));
    assert_eq!(index, 8);
    let two = bytes_to_resp(&buffer, &mut index).unwrap();
    assert_eq!(two, RESP::Integer(2));
    assert_eq!(index, buffer.len());
}
