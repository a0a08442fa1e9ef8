use simple_lsm_db::error::ErrorKind;
use simple_lsm_db::protocol::Command;
use simple_lsm_db::response::Response;

#[test]
fn test_get_command_deserialization() {
    let cmd = Command::try_from(b"get test".as_slice());
    assert!(matches!(cmd, Ok(Command::Get { key: b"test" })));
}

#[test]
fn test_set_command_deserialization() {
    let cmd = Command::try_from(b"set test value".as_slice());
    assert!(matches!(
        cmd,
        Ok(Command::Put {
            key: b"test",
            value: b"value"
        })
    ));
}

#[test]
fn test_delete_command_deserialization() {
    let cmd = Command::try_from(b"delete test".as_slice());
    assert!(matches!(cmd, Ok(Command::Delete { key: b"test" })));
}

#[test]
fn test_unknown_command_deserialization() {
    let cmd = Command::try_from(b"unknown test".as_slice());
    assert!(cmd.is_err());
    let err = cmd.unwrap_err();
    assert_eq!(err.kind(), ErrorKind::InvalidData);
    // The message shows the unknown command as a byte array.
    let expected = format!("Unknown command: {:?}", b"unknown");
    assert_eq!(err.to_string(), expected);
}

#[test]
fn test_get_command_serialization() {
    let cmd = Command::Get { key: b"test" };
    assert_eq!(cmd.encode(), b"get test".to_vec());
}

#[test]
fn test_set_command_serialization() {
    let cmd = Command::Put {
        key: b"test",
        value: b"value",
    };
    assert_eq!(cmd.encode(), b"set test value".to_vec());
}

#[test]
fn test_delete_command_serialization() {
    let cmd = Command::Delete { key: b"test" };
    assert_eq!(cmd.encode(), b"delete test".to_vec());
}

#[test]
fn command_words_ignore_case_and_whitespace() {
    let cmd = Command::try_from(b"  GeT k1\r\n".as_slice());
    assert!(matches!(cmd, Ok(Command::Get { key: b"k1" })));
    let cmd = Command::try_from(b"SET k v w\n".as_slice());
    assert!(matches!(cmd, Ok(Command::Put { key: b"k", value: b"v w" })));
}

#[test]
fn command_missing_parts_are_errors() {
    let err = Command::try_from(b"GET".as_slice()).unwrap_err();
    assert_eq!(err.kind(), ErrorKind::InvalidData);
    assert_eq!(err.to_string(), "Missing key for GET command");
    let err = Command::try_from(b"SET".as_slice()).unwrap_err();
    assert_eq!(err.to_string(), "Missing key for SET command");
    let err = Command::try_from(b"SET k".as_slice()).unwrap_err();
    assert_eq!(err.to_string(), "Missing value for SET command");
    let err = Command::try_from(b"DELETE\n".as_slice()).unwrap_err();
    assert_eq!(err.to_string(), "Missing key for DELETE command");
}

#[test]
fn unknown_command_gives_error_response() {
    let err = Command::try_from(b"FOO bar".as_slice()).unwrap_err();
    assert_eq!(err.to_string(), "Unknown command: [70, 79, 79]");
    let line = Response::Failure(err.to_string()).encode();
    assert_eq!(line, b"ERROR: Unknown command: [70, 79, 79]\n".to_vec());
    // The next request on a new connection is served as usual.
    assert!(matches!(Command::try_from(b"GET k".as_slice()), Ok(Command::Get { key: b"k" })));
}

#[test]
fn response_lines() {
    assert_eq!(Response::Success.encode(), b"OK\n".to_vec());
    assert_eq!(Response::Value(None).encode(), b"OK:\n".to_vec());
    assert_eq!(Response::Value(Some(b"v1".to_vec())).encode(), b"OK: v1\n".to_vec());
    assert_eq!(Response::Failure("bad".to_string()).encode(), b"ERROR: bad\n".to_vec());
}

#[test]
fn response_parsing() {
    assert!(matches!(Response::try_from(b"OK\n".as_slice()), Ok(Response::Success)));
    assert!(matches!(Response::try_from(b"OK:\n".as_slice()), Ok(Response::Value(None))));
    match Response::try_from(b"OK: v1\n".as_slice()) {
        Ok(Response::Value(Some(v))) => assert_eq!(v, b"v1".to_vec()),
        other => panic!("unexpected {:?}", other),
    }
    match Response::try_from(b"ERROR: it failed\n".as_slice()) {
        Ok(Response::Failure(m)) => assert_eq!(m, "it failed"),
        other => panic!("unexpected {:?}", other),
    }
    let err = Response::try_from(b"WHAT\n".as_slice()).unwrap_err();
    assert_eq!(err.kind(), ErrorKind::InvalidData);
}
