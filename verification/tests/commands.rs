use redis_clone::cmd::Command;
use redis_clone::common::{bytes_to_i64, bytes_to_string};
use redis_clone::err::RedisCommandError;
use redis_clone::frame::Frame;
use redis_clone::text::{decimal_bytes, str_eq};

fn bulk(s: &str) -> Frame {
    Frame::Bulk(s.as_bytes().to_vec())
}

fn request(parts: &[&str]) -> Frame {
    Frame::Array(parts.iter().map(|p| bulk(p)).collect())
}

#[test]
fn from_frame_reads_each_command() {
    assert!(matches!(
        Command::from_frame(request(&["GET", "k"])),
        Ok(Command::Get { key }) if key == "k"
    ));
    assert!(matches!(
        Command::from_frame(request(&["SET", "k", "v"])),
        Ok(Command::SetKey { key, val, expiration: None }) if key == "k" && val == b"v"
    ));
    assert!(matches!(
        Command::from_frame(request(&["SET", "k", "v", "EX", "3"])),
        Ok(Command::SetKey { expiration: Some(3_000), .. })
    ));
    assert!(matches!(
        Command::from_frame(request(&["SET", "k", "v", "PX", "3"])),
        Ok(Command::SetKey { expiration: Some(3), .. })
    ));
    assert!(matches!(
        Command::from_frame(request(&["SET", "k", "v", "EX", "18446744073709551615"])),
        Ok(Command::SetKey { expiration: Some(18_446_744_073_709_551_615_000), .. })
    ));
    assert!(matches!(
        Command::from_frame(request(&["PING"])),
        Ok(Command::Ping { msg: None })
    ));
    assert!(matches!(
        Command::from_frame(request(&["PING", "hi"])),
        Ok(Command::Ping { msg: Some(m) }) if m == "hi"
    ));
    assert!(matches!(
        Command::from_frame(request(&["DEL", "a", "b"])),
        Ok(Command::Del { keys }) if keys == vec!["a", "b"]
    ));
    assert!(matches!(
        Command::from_frame(request(&["EXISTS", "a", "b", "a"])),
        Ok(Command::Exists { keys }) if keys == vec!["a", "b", "a"]
    ));
    assert!(matches!(
        Command::from_frame(request(&["INCR", "n"])),
        Ok(Command::Increment { key }) if key == "n"
    ));
    assert!(matches!(
        Command::from_frame(request(&["KEYS", "k*"])),
        Ok(Command::Keys { pattern }) if pattern == "k*"
    ));
    assert!(matches!(Command::from_frame(request(&["FLUSHDB"])), Ok(Command::FlushDB)));
    assert!(matches!(Command::from_frame(request(&["DBSIZE"])), Ok(Command::DBSize)));
    assert!(matches!(
        Command::from_frame(request(&["EXPIRE", "k", "10"])),
        Ok(Command::Expire { key, seconds: 10 }) if key == "k"
    ));
    assert!(matches!(
        Command::from_frame(request(&["TTL", "k"])),
        Ok(Command::TTL { key }) if key == "k"
    ));
    assert!(matches!(
        Command::from_frame(request(&["LLEN", "mylist"])),
        Ok(Command::Unknown(name)) if name == "LLEN"
    ));
    assert!(matches!(
        Command::from_frame(Frame::Array(vec![bulk("LOLWUT"), Frame::Integer(1), Frame::Null])),
        Ok(Command::Lolwut(frames)) if frames == vec![Frame::Integer(1), Frame::Null]
    ));
}

#[test]
fn command_names_are_read_in_either_case() {
    for name in ["get", "Get", "gEt", "GET"] {
        assert!(matches!(
            Command::from_frame(request(&[name, "k"])),
            Ok(Command::Get { .. })
        ));
    }
    assert!(matches!(
        Command::from_frame(request(&["set", "k", "v", "ex", "1"])),
        Ok(Command::SetKey { expiration: Some(1_000), .. })
    ));
    assert!(matches!(
        Command::from_frame(Frame::Simple("Ping".to_string())),
        Ok(Command::Ping { msg: None })
    ));
    // The name of an unknown command is kept as it came.
    assert!(matches!(
        Command::from_frame(request(&["hello"])),
        Ok(Command::Unknown(name)) if name == "hello"
    ));
}

#[test]
fn command_names_are_upper_cased_as_text() {
    // The long s is a lower-case letter whose upper case is `S`.
    assert!(matches!(
        Command::from_frame(request(&["\u{17f}et", "k", "v"])),
        Ok(Command::SetKey { .. })
    ));
    assert!(matches!(
        Command::from_frame(request(&["\u{17f}et"])),
        Err(RedisCommandError::WrongNumberOfArguments(..))
    ));
}

#[test]
fn unsigned_numbers_may_carry_a_plus() {
    assert!(matches!(
        Command::from_frame(request(&["EXPIRE", "k", "+5"])),
        Ok(Command::Expire { seconds: 5, .. })
    ));
    assert!(matches!(
        Command::from_frame(request(&["SET", "k", "v", "PX", "+0012"])),
        Ok(Command::SetKey { expiration: Some(12), .. })
    ));
    for bad in ["-0", "+", "-", "+-1", "5+"] {
        assert!(matches!(
            Command::from_frame(request(&["EXPIRE", "k", bad])),
            Err(RedisCommandError::NotInteger(_))
        ));
    }
}

#[test]
fn from_parts_goes_by_the_upper_case_name() {
    assert!(matches!(
        Command::from_parts("GET", "get".to_string(), vec![bulk("k")]),
        Ok(Command::Get { key }) if key == "k"
    ));
    assert!(matches!(
        Command::from_parts("get", "get".to_string(), vec![bulk("k")]),
        Ok(Command::Unknown(name)) if name == "get"
    ));
    assert!(matches!(Command::expiration_from("EX", bulk("2")), Ok(2_000)));
    assert!(matches!(Command::expiration_from("PX", bulk("2")), Ok(2)));
    assert!(matches!(
        Command::expiration_from("ex", bulk("2")),
        Err(RedisCommandError::NotImplemented(_))
    ));
}

fn message_of(frame: Frame) -> String {
    Command::from_frame(frame).unwrap_err().message()
}

#[test]
fn from_frame_errors() {
    assert_eq!(
        message_of(Frame::Array(vec![])),
        "Invalid or unimplemented command: Empty command"
    );
    assert_eq!(message_of(Frame::Integer(1)), "Invalid frame format: Expected array frame");
    assert_eq!(message_of(Frame::Null), "Invalid frame format: Expected array frame");
    assert_eq!(message_of(bulk("GET")), "Invalid frame format: Expected array frame");
    assert_eq!(
        message_of(Frame::Simple("GET".to_string())),
        "Invalid frame format: Expected array frame"
    );
    assert_eq!(
        message_of(Frame::Array(vec![Frame::Simple("GET".to_string()), bulk("k")])),
        "Invalid frame format: Expected bulk string"
    );
    assert_eq!(
        message_of(Frame::Array(vec![bulk("GET"), Frame::Integer(1)])),
        "Invalid frame format: Expected bulk string"
    );
    assert_eq!(
        message_of(Frame::Array(vec![bulk("DEL"), bulk("a"), Frame::Null, Frame::Bulk(vec![0xff])])),
        "Invalid frame format: Expected bulk string"
    );
    assert_eq!(message_of(request(&["GET"])), "GET expects 1 arguments, got 0");
    assert_eq!(message_of(request(&["GET", "a", "b"])), "GET expects 1 arguments, got 2");
    assert_eq!(message_of(request(&["INCR"])), "INCR expects 1 arguments, got 0");
    assert_eq!(message_of(request(&["TTL", "a", "b"])), "TTL expects 1 arguments, got 2");
    assert_eq!(message_of(request(&["EXISTS"])), "EXISTS expects >0 arguments, got 0");
    assert_eq!(message_of(request(&["KEYS"])), "KEYS expects 1 arguments, got 0");
    assert_eq!(message_of(request(&["LOLWUT"])), "LOLWUT expects 1 arguments, got 0");
    assert_eq!(message_of(request(&["FLUSHDB", "x"])), "FLUSHDB expects 0 arguments, got 1");
    assert_eq!(message_of(request(&["EXPIRE", "k"])), "EXPIRE expects 2 arguments, got 1");
    assert_eq!(message_of(request(&["SET"])), "SET expects 2 or 4 arguments, got 0");
    assert_eq!(
        message_of(request(&["SET", "k", "v", "EX", "1", "x"])),
        "SET expects 2 or 4 arguments, got 3"
    );
    assert_eq!(
        message_of(request(&["SET", "k", "v", "KEEPTTL", "1"])),
        "Not implemented error: Expected EX <seconds> or PX <milliseconds>"
    );
    for bad in ["-1", "1.5", "", "18446744073709551616", "ten"] {
        assert_eq!(
            message_of(request(&["SET", "k", "v", "EX", bad])),
            "Failed to parse integer: Invalid u64"
        );
        assert_eq!(
            message_of(request(&["EXPIRE", "k", bad])),
            format!("Failed to parse integer: Invalid seconds: {}", bad)
        );
    }
}

#[test]
fn from_frame_rejects_what_is_no_utf8() {
    let name = Frame::Array(vec![Frame::Bulk(vec![b'G', 0xff])]);
    let e = Command::from_frame(name).unwrap_err();
    assert!(matches!(e, RedisCommandError::InvalidUtf8(_)));
    assert!(e.message().starts_with("Invalid UTF-8 in command: "));
    assert!(e.message().len() > "Invalid UTF-8 in command: ".len());

    let key = Frame::Array(vec![bulk("GET"), Frame::Bulk(vec![0xc3, 0x28])]);
    assert!(matches!(Command::from_frame(key), Err(RedisCommandError::InvalidUtf8(_))));

    // A value may hold any bytes.
    let value = Frame::Array(vec![bulk("SET"), bulk("k"), Frame::Bulk(vec![0xff, 0x00])]);
    assert!(matches!(
        Command::from_frame(value),
        Ok(Command::SetKey { val, .. }) if val == vec![0xff, 0x00]
    ));
}

#[test]
fn into_frame_writes_each_command() {
    assert_eq!(Command::Get { key: "k".to_string() }.into_frame(), request(&["GET", "k"]));
    assert_eq!(
        Command::SetKey { key: "k".to_string(), val: b"v".to_vec(), expiration: None }.into_frame(),
        request(&["SET", "k", "v"])
    );
    assert_eq!(
        Command::SetKey { key: "k".to_string(), val: b"v".to_vec(), expiration: Some(1500) }
            .into_frame(),
        request(&["SET", "k", "v", "PX", "1500"])
    );
    assert_eq!(Command::Ping { msg: None }.into_frame(), request(&["PING"]));
    assert_eq!(
        Command::Ping { msg: Some("hi".to_string()) }.into_frame(),
        request(&["PING", "hi"])
    );
    assert_eq!(
        Command::Del { keys: vec!["a".to_string(), "b".to_string()] }.into_frame(),
        request(&["DEL", "a", "b"])
    );
    assert_eq!(
        Command::Exists { keys: vec!["a".to_string()] }.into_frame(),
        request(&["EXISTS", "a"])
    );
    assert_eq!(Command::Increment { key: "n".to_string() }.into_frame(), request(&["INCR", "n"]));
    assert_eq!(Command::Keys { pattern: "*".to_string() }.into_frame(), request(&["KEYS", "*"]));
    assert_eq!(Command::FlushDB.into_frame(), request(&["FLUSHDB"]));
    assert_eq!(Command::DBSize.into_frame(), request(&["DBSIZE"]));
    assert_eq!(Command::Unknown("WHAT".to_string()).into_frame(), request(&["WHAT"]));
    assert_eq!(
        Command::Expire { key: "k".to_string(), seconds: u64::MAX }.into_frame(),
        request(&["EXPIRE", "k", "18446744073709551615"])
    );
    assert_eq!(Command::TTL { key: "k".to_string() }.into_frame(), request(&["TTL", "k"]));
    assert_eq!(
        Command::Lolwut(vec![Frame::Integer(1), Frame::Array(vec![])]).into_frame(),
        Frame::Array(vec![bulk("LOLWUT"), Frame::Integer(1), Frame::Array(vec![])])
    );
}

#[test]
fn a_command_written_is_read_back() {
    let frame = Command::SetKey { key: "k".to_string(), val: b"v".to_vec(), expiration: Some(77) }
        .into_frame();
    assert!(matches!(
        Command::from_frame(frame),
        Ok(Command::SetKey { key, val, expiration: Some(77) }) if key == "k" && val == b"v"
    ));
    let frame = Command::Expire { key: "k".to_string(), seconds: 9 }.into_frame();
    assert!(matches!(
        Command::from_frame(frame),
        Ok(Command::Expire { key, seconds: 9 }) if key == "k"
    ));
}

#[test]
fn bytes_to_text_and_number() {
    assert_eq!(bytes_to_string(b"hello").unwrap(), "hello");
    assert_eq!(bytes_to_string("汉语 🚀".as_bytes()).unwrap(), "汉语 🚀");
    assert_eq!(bytes_to_string(b"").unwrap(), "");
    assert!(matches!(
        bytes_to_string(&[0x66, 0xff]),
        Err(RedisCommandError::InvalidUtf8(_))
    ));

    assert_eq!(bytes_to_i64(b"1000").unwrap(), 1000);
    assert_eq!(bytes_to_i64(b"  -42\n").unwrap(), -42);
    assert_eq!(bytes_to_i64(b"\t+7 ").unwrap(), 7);
    assert!(matches!(bytes_to_i64(b"4 2"), Err(RedisCommandError::NotInteger(_))));
    assert!(matches!(bytes_to_i64(b""), Err(RedisCommandError::NotInteger(_))));
    assert!(matches!(
        bytes_to_i64(b"9223372036854775808"),
        Err(RedisCommandError::NotInteger(_))
    ));
    assert!(matches!(bytes_to_i64(&[0xff]), Err(RedisCommandError::InvalidUtf8(_))));
}

#[test]
fn decimal_texts() {
    assert_eq!(decimal_bytes(0), b"0".to_vec());
    assert_eq!(decimal_bytes(7), b"7".to_vec());
    assert_eq!(decimal_bytes(-7), b"-7".to_vec());
    assert_eq!(decimal_bytes(1200), b"1200".to_vec());
    assert_eq!(decimal_bytes(i64::MAX), b"9223372036854775807".to_vec());
    assert_eq!(decimal_bytes(i64::MIN), b"-9223372036854775808".to_vec());
    assert!(str_eq("abc", "abc"));
    assert!(!str_eq("abc", "abd"));
    assert!(!str_eq("abc", "ab"));
    assert!(str_eq("", ""));
}

#[test]
fn error_messages() {
    assert_eq!(
        RedisCommandError::InvalidCommand("X".to_string()).message(),
        "Invalid or unimplemented command: X"
    );
    assert_eq!(
        RedisCommandError::InvalidFrame("X".to_string()).message(),
        "Invalid frame format: X"
    );
    assert_eq!(
        RedisCommandError::InvalidUtf8("X".to_string()).message(),
        "Invalid UTF-8 in command: X"
    );
    assert_eq!(
        RedisCommandError::NotInteger("X".to_string()).message(),
        "Failed to parse integer: X"
    );
    assert_eq!(
        RedisCommandError::WrongNumberOfArguments("GET".to_string(), "1".to_string(), 1234567890)
            .message(),
        "GET expects 1 arguments, got 1234567890"
    );
    assert_eq!(
        RedisCommandError::NotImplemented("X".to_string()).message(),
        "Not implemented error: X"
    );
}
