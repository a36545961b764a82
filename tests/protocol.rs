use redis_starter_rust::command::Command;
use redis_starter_rust::resp::{ProtocolError, RespValue};
use redis_starter_rust::server::{apply, next_action, respond, Action};
use redis_starter_rust::store::Store;

fn bulk(s: &[u8]) -> RespValue {
    RespValue::BulkString(s.to_vec())
}

fn request(parts: &[&str]) -> RespValue {
    RespValue::Array(parts.iter().map(|p| bulk(p.as_bytes())).collect())
}

/// Runs one request through the connection logic, as the server does.
fn exchange(input: &[u8], store: &mut Store) -> Vec<u8> {
    match next_action(input) {
        Action::Reply(r) => r,
        Action::Run(cmd) => match respond(&cmd) {
            Some(r) => r,
            None => apply(&cmd, store),
        },
        Action::Wait => panic!("incomplete request"),
        Action::Close(e) => panic!("protocol error {:?}", e),
    }
}

#[test]
fn ping_without_argument_replies_pong() {
    let mut store = Store::new();
    assert_eq!(exchange(b"*1\r\n$4\r\nPING\r\n", &mut store), b"+PONG\r\n".to_vec());
}

#[test]
fn echo_replies_its_argument() {
    let mut store = Store::new();
    assert_eq!(exchange(b"*2\r\n$4\r\nECHO\r\n$5\r\nhello\r\n", &mut store), b"+hello\r\n".to_vec());
}

#[test]
fn set_then_get() {
    let mut store = Store::new();
    assert_eq!(exchange(b"*3\r\n$3\r\nSET\r\n$3\r\nfoo\r\n$3\r\nbar\r\n", &mut store), b"+OK\r\n".to_vec());
    assert_eq!(exchange(b"*2\r\n$3\r\nGET\r\n$3\r\nfoo\r\n", &mut store), b"+bar\r\n".to_vec());
}

#[test]
fn get_missing_key() {
    let mut store = Store::new();
    assert_eq!(
        exchange(b"*2\r\n$3\r\nGET\r\n$7\r\nmissing\r\n", &mut store),
        b"-ERR Key not found\r\n".to_vec()
    );
}

#[test]
fn unknown_command_then_valid_one() {
    let mut store = Store::new();
    assert_eq!(exchange(b"*1\r\n$7\r\nUNKNOWN\r\n", &mut store), b"-ERR Invalid command\r\n".to_vec());
    assert_eq!(exchange(b"*1\r\n$4\r\nPING\r\n", &mut store), b"+PONG\r\n".to_vec());
}

#[test]
fn set_with_one_argument_is_no_command() {
    assert!(Command::from_resp_value(&request(&["SET", "key"])).is_none());
}

#[test]
fn set_with_two_arguments() {
    match Command::from_resp_value(&request(&["SET", "key", "value"])) {
        Some(Command::SetKey(k, v)) => {
            assert_eq!(k, "key");
            assert_eq!(v, "value");
        }
        other => panic!("unexpected {:?}", other),
    }
}

#[test]
fn get_without_argument_is_no_command() {
    assert!(Command::from_resp_value(&request(&["GET"])).is_none());
}

#[test]
fn command_names_ignore_case() {
    match Command::from_resp_value(&request(&["pInG", "hi"])) {
        Some(Command::Ping(m)) => assert_eq!(m, "hi"),
        other => panic!("unexpected {:?}", other),
    }
    match Command::from_resp_value(&request(&["echo", "x"])) {
        Some(Command::Echo(m)) => assert_eq!(m, "x"),
        other => panic!("unexpected {:?}", other),
    }
}

#[test]
fn ping_with_malformed_argument_is_no_command() {
    let v = RespValue::Array(vec![bulk(b"PING"), RespValue::Integer(3)]);
    assert!(Command::from_resp_value(&v).is_none());
}

#[test]
fn non_array_is_no_command() {
    assert!(Command::from_resp_value(&RespValue::SimpleString(b"PING".to_vec())).is_none());
    assert!(Command::from_resp_value(&RespValue::Array(vec![])).is_none());
}

#[test]
fn arguments_are_decoded_lossily() {
    let v = RespValue::Array(vec![bulk(b"ECHO"), bulk(&[0x68, 0xff, 0x69])]);
    match Command::from_resp_value(&v) {
        Some(Command::Echo(m)) => assert_eq!(m, "h\u{fffd}i"),
        other => panic!("unexpected {:?}", other),
    }
    match Command::from_resp_value(&request(&["ECHO", "héllo"])) {
        Some(Command::Echo(m)) => assert_eq!(m, "héllo"),
        other => panic!("unexpected {:?}", other),
    }
}

#[test]
fn set_overwrites() {
    let mut store = Store::new();
    exchange(b"*3\r\n$3\r\nSET\r\n$1\r\nk\r\n$2\r\nv1\r\n", &mut store);
    exchange(b"*3\r\n$3\r\nSET\r\n$1\r\nk\r\n$2\r\nv2\r\n", &mut store);
    assert_eq!(exchange(b"*2\r\n$3\r\nGET\r\n$1\r\nk\r\n", &mut store), b"+v2\r\n".to_vec());
    assert_eq!(store.get(&"k".to_string()), Some("v2".to_string()));
    assert_eq!(store.get(&"other".to_string()), None);
}

#[test]
fn encodings() {
    assert_eq!(RespValue::SimpleString(b"OK".to_vec()).encode(), b"+OK\r\n".to_vec());
    assert_eq!(RespValue::Error(b"ERR x".to_vec()).encode(), b"-ERR x\r\n".to_vec());
    assert_eq!(RespValue::Integer(-42).encode(), b":-42\r\n".to_vec());
    assert_eq!(RespValue::Integer(0).encode(), b":0\r\n".to_vec());
    assert_eq!(RespValue::Integer(i64::MIN).encode(), b":-9223372036854775808\r\n".to_vec());
    assert_eq!(bulk(b"foo").encode(), b"$3\r\nfoo\r\n".to_vec());
    assert_eq!(bulk(b"").encode(), b"$0\r\n\r\n".to_vec());
    assert_eq!(RespValue::NullBulkString.encode(), b"$-1\r\n".to_vec());
    assert_eq!(RespValue::NullArray.encode(), b"*-1\r\n".to_vec());
    assert_eq!(request(&["GET", "k"]).encode(), b"*2\r\n$3\r\nGET\r\n$1\r\nk\r\n".to_vec());
}

fn samples() -> Vec<RespValue> {
    vec![
        RespValue::SimpleString(b"hello world".to_vec()),
        RespValue::Error(b"ERR bad".to_vec()),
        RespValue::Integer(1234567890123),
        RespValue::Integer(i64::MAX),
        RespValue::Integer(i64::MIN),
        bulk(b"a\r\nb"),
        bulk(b""),
        RespValue::NullBulkString,
        RespValue::NullArray,
        RespValue::Array(vec![]),
        RespValue::Array(vec![
            request(&["SET", "k", "v"]),
            RespValue::Integer(-1),
            RespValue::NullBulkString,
        ]),
    ]
}

#[test]
fn encode_then_parse_round_trips() {
    for v in samples() {
        let bytes = v.encode();
        match RespValue::from_bytes(&bytes) {
            Ok(Some((n, back))) => {
                assert_eq!(n, bytes.len());
                assert_eq!(format!("{:?}", back), format!("{:?}", v));
            }
            other => panic!("unexpected {:?}", other),
        }
    }
}

#[test]
fn strict_prefixes_need_more_data() {
    for v in samples() {
        let bytes = v.encode();
        for k in 0..bytes.len() {
            assert!(matches!(RespValue::from_bytes(&bytes[..k]), Ok(None)), "prefix {} of {:?}", k, v);
        }
    }
}

#[test]
fn trailing_bytes_are_left() {
    let mut bytes = b"+OK\r\n".to_vec();
    bytes.extend_from_slice(b"*1\r\n");
    match RespValue::from_bytes(&bytes) {
        Ok(Some((n, RespValue::SimpleString(s)))) => {
            assert_eq!(n, 5);
            assert_eq!(s, b"OK".to_vec());
        }
        other => panic!("unexpected {:?}", other),
    }
}

#[test]
fn malformed_input_is_an_error() {
    assert!(matches!(RespValue::from_bytes(b"?x\r\n"), Err(ProtocolError::UnknownPrefix)));
    assert!(matches!(RespValue::from_bytes(b":12a\r\n"), Err(ProtocolError::InvalidInteger)));
    assert!(matches!(RespValue::from_bytes(b":99999999999999999999\r\n"), Err(ProtocolError::InvalidInteger)));
    assert!(matches!(RespValue::from_bytes(b"$x\r\n"), Err(ProtocolError::InvalidLength)));
    assert!(matches!(RespValue::from_bytes(b"*-2\r\n"), Err(ProtocolError::InvalidLength)));
    assert!(matches!(RespValue::from_bytes(b"$3\r\nfooXY"), Err(ProtocolError::MissingTerminator)));
    assert!(matches!(RespValue::from_bytes(b"*2\r\n$1\r\na\r\n!"), Err(ProtocolError::UnknownPrefix)));
}

#[test]
fn malformed_request_closes_the_connection() {
    assert!(matches!(next_action(b"%bad\r\n"), Action::Close(ProtocolError::UnknownPrefix)));
    assert!(matches!(next_action(b"*1\r\n$4\r\nPI"), Action::Wait));
    assert!(matches!(next_action(b""), Action::Wait));
}

#[test]
fn parsed_values() {
    match RespValue::from_bytes(b":-17\r\n") {
        Ok(Some((6, RespValue::Integer(-17)))) => {}
        other => panic!("unexpected {:?}", other),
    }
    match RespValue::from_bytes(b"$-1\r\n") {
        Ok(Some((5, RespValue::NullBulkString))) => {}
        other => panic!("unexpected {:?}", other),
    }
}

#[test]
fn non_ascii_echo_is_sent_back_as_utf8() {
    let mut store = Store::new();
    let mut input = b"*2\r\n$4\r\nECHO\r\n$2\r\n".to_vec();
    input.extend_from_slice(&[0xc3, 0xa9]);
    input.extend_from_slice(b"\r\n");
    assert_eq!(exchange(&input, &mut store), vec![b'+', 0xc3, 0xa9, b'\r', b'\n']);
}

#[test]
fn surplus_arguments_are_no_command() {
    assert!(Command::from_resp_value(&request(&["GET", "a", "b"])).is_none());
    assert!(Command::from_resp_value(&request(&["PING", "a", "b"])).is_none());
    assert!(Command::from_resp_value(&request(&["ECHO", "a", "b"])).is_none());
    assert!(Command::from_resp_value(&request(&["SET", "k", "v", "extra"])).is_none());
    assert!(Command::from_resp_value(&request(&["ECHO"])).is_none());
}

#[test]
fn surplus_arguments_reply_invalid_command() {
    let mut store = Store::new();
    assert_eq!(
        exchange(b"*3\r\n$3\r\nGET\r\n$1\r\na\r\n$1\r\nb\r\n", &mut store),
        b"-ERR Invalid command\r\n".to_vec()
    );
}
