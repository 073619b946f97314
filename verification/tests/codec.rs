use redis_clone::cursor::Cursor;
use redis_clone::err::RedisProtocolError;
use redis_clone::frame::{
    get_byte_slice, get_line, has_crlf, has_crlf_with_checks, is_crlf, is_number_text,
    read_count, read_integer, seek_newline, Frame,
};

fn bulk(s: &str) -> Frame {
    Frame::Bulk(s.as_bytes().to_vec())
}

fn encoded(frame: &Frame) -> Vec<u8> {
    let mut out = Vec::new();
    frame.encode(&mut out);
    out
}

fn decoded(bytes: &[u8]) -> Result<(Frame, usize), RedisProtocolError> {
    let mut probe = Cursor::new(bytes);
    let probed = Frame::is_parsable(&mut probe);
    let mut cursor = Cursor::new(bytes);
    let parsed = Frame::parse(&mut cursor);
    match (probed, parsed) {
        (Ok(()), Ok(frame)) => {
            assert_eq!(probe.position(), cursor.position());
            Ok((frame, cursor.position()))
        }
        (Err(a), Err(b)) => {
            assert_eq!(a.message(), b.message());
            Err(b)
        }
        (a, b) => panic!("probe and decode differ: {:?} and {:?}", a, b),
    }
}

#[test]
fn encode_each_kind() {
    assert_eq!(encoded(&Frame::Simple("OK".to_string())), b"+OK\r\n".to_vec());
    assert_eq!(encoded(&Frame::Error("ERR x".to_string())), b"-ERR x\r\n".to_vec());
    assert_eq!(encoded(&Frame::Integer(0)), b":0\r\n".to_vec());
    assert_eq!(encoded(&Frame::Integer(-78741)), b":-78741\r\n".to_vec());
    assert_eq!(
        encoded(&Frame::Integer(i64::MIN)),
        b":-9223372036854775808\r\n".to_vec()
    );
    assert_eq!(
        encoded(&Frame::Integer(i64::MAX)),
        b":9223372036854775807\r\n".to_vec()
    );
    assert_eq!(encoded(&bulk("hello")), b"$5\r\nhello\r\n".to_vec());
    assert_eq!(encoded(&bulk("")), b"$0\r\n\r\n".to_vec());
    assert_eq!(encoded(&Frame::Null), b"$-1\r\n".to_vec());
    assert_eq!(encoded(&Frame::Array(vec![])), b"*0\r\n".to_vec());
    assert_eq!(
        encoded(&Frame::Array(vec![
            Frame::Integer(1),
            Frame::Array(vec![bulk("a"), Frame::Null]),
            Frame::Simple("x".to_string()),
        ])),
        b"*3\r\n:1\r\n*2\r\n$1\r\na\r\n$-1\r\n+x\r\n".to_vec()
    );
}

#[test]
fn encode_appends() {
    let mut out = b"+A\r\n".to_vec();
    Frame::Integer(12).encode(&mut out);
    assert_eq!(out, b"+A\r\n:12\r\n".to_vec());
}

#[test]
fn written_is_read() {
    let frames = vec![
        Frame::Simple(String::new()),
        Frame::Simple("Hello, Redis! 🚀 汉语".to_string()),
        Frame::Error("ERR something".to_string()),
        Frame::Integer(0),
        Frame::Integer(-1),
        Frame::Integer(i64::MIN),
        Frame::Integer(i64::MAX),
        bulk(""),
        bulk("a\r\nb\n\r"),
        Frame::Bulk((0u8..=255).collect()),
        Frame::Null,
        Frame::Array(vec![]),
        Frame::Array(vec![Frame::Array(vec![Frame::Array(vec![])]), Frame::Null, bulk("x")]),
        Frame::Array((0..300).map(Frame::Integer).collect()),
    ];
    for frame in frames {
        let bytes = encoded(&frame);
        let (read, len) = decoded(&bytes).unwrap();
        assert_eq!(read, frame);
        assert_eq!(len, bytes.len());

        // The same with bytes behind the frame.
        let mut more = bytes.clone();
        more.extend_from_slice(b"+next\r\n");
        let (read, len) = decoded(&more).unwrap();
        assert_eq!(read, frame);
        assert_eq!(len, bytes.len());

        // Every proper prefix is too short.
        for cut in 0..bytes.len() {
            assert!(
                matches!(decoded(&bytes[..cut]), Err(RedisProtocolError::NotEnoughData)),
                "{:?} cut at {}",
                frame,
                cut
            );
        }
    }
}

#[test]
fn error_frames_are_read_as_errors() {
    let (frame, _) = decoded(b"-ERR unknown\r\n").unwrap();
    assert_eq!(frame, Frame::Error("ERR unknown".to_string()));
}

#[test]
fn bulk_strings_are_binary_clean() {
    let (frame, len) = decoded(b"$6\r\n\r\n\r\n\r\n\r\nrest").unwrap();
    assert_eq!(frame, bulk("\r\n\r\n\r\n"));
    assert_eq!(len, 12);
    let (frame, len) = decoded(b"$0\r\n\r\n").unwrap();
    assert_eq!(frame, bulk(""));
    assert_eq!(len, 6);
}

#[test]
fn bulk_length_errors() {
    // The bytes behind the payload are no line break.
    assert!(matches!(
        decoded(b"$3\r\nabcdef\r\n"),
        Err(RedisProtocolError::ConversionError(text)) if text == "3"
    ));
    // Not yet decided: the line break may still come.
    assert!(matches!(decoded(b"$3\r\nabc\r"), Err(RedisProtocolError::NotEnoughData)));
    for bad in [&b"$-2\r\n"[..], b"$\r\n", b"$abc\r\n", b"$1x\r\nab\r\n", b"$2147483648\r\n", b"$99999999999999999999\r\n", b"$ 1\r\na\r\n"] {
        assert!(
            matches!(decoded(bad), Err(RedisProtocolError::ConversionError(_))),
            "{:?}",
            bad
        );
    }
    let (frame, _) = decoded(b"$+1\r\na\r\n").unwrap();
    assert_eq!(frame, bulk("a"));
    let (frame, _) = decoded(b"$-0\r\n\r\n").unwrap();
    assert_eq!(frame, bulk(""));
    let (frame, _) = decoded(b"$001\r\na\r\n").unwrap();
    assert_eq!(frame, bulk("a"));
}

#[test]
fn integer_errors() {
    for bad in [&b":\r\n"[..], b":abc\r\n", b":12abc\r\n", b":-\r\n", b":+\r\n", b": 1\r\n", b":1 \r\n", b":--1\r\n", b":9223372036854775808\r\n", b":-9223372036854775809\r\n"] {
        assert!(
            matches!(decoded(bad), Err(RedisProtocolError::ConversionError(_))),
            "{:?}",
            bad
        );
    }
    match decoded(b":12abc\r\n") {
        Err(e) => assert_eq!(e.message(), "Invalid frame format. Conversion of `12abc` failed."),
        Ok(_) => panic!("no integer"),
    }
    assert_eq!(decoded(b":+7\r\n").unwrap().0, Frame::Integer(7));
    assert_eq!(decoded(b":-0\r\n").unwrap().0, Frame::Integer(0));
    assert_eq!(decoded(b":0042\r\n").unwrap().0, Frame::Integer(42));
}

#[test]
fn array_count_errors() {
    for bad in [&b"*-1\r\n"[..], b"*\r\n", b"*x\r\n", b"*1.0\r\n+a\r\n", b"*99999999999999999999999\r\n"] {
        assert!(
            matches!(decoded(bad), Err(RedisProtocolError::ConversionError(_))),
            "{:?}",
            bad
        );
    }
    assert_eq!(decoded(b"*+1\r\n_\r\n").unwrap().0, Frame::Array(vec![Frame::Null]));
    // An error inside an array is the error of the array.
    assert!(matches!(
        decoded(b"*2\r\n+ok\r\n^\r\n"),
        Err(RedisProtocolError::UnsupportedFrame(94))
    ));
    assert!(matches!(
        decoded(b"*2\r\n+ok\r\n+o\nk\r\n"),
        Err(RedisProtocolError::ExcessiveNewline)
    ));
    assert!(matches!(decoded(b"*2\r\n+ok\r\n"), Err(RedisProtocolError::NotEnoughData)));
}

#[test]
fn stray_newlines() {
    for bad in [&b"+OK\n0\r\n"[..], b"+OK\n", b"-a\rb\r\n", b":1\r2\r\n", b"_\n\r\n", b"+\r\r\n"] {
        assert!(
            matches!(decoded(bad), Err(RedisProtocolError::ExcessiveNewline)),
            "{:?}",
            bad
        );
    }
    assert!(matches!(decoded(b"+OK\r"), Err(RedisProtocolError::NotEnoughData)));
    assert_eq!(
        RedisProtocolError::ExcessiveNewline.message(),
        "Found `\\n` before `\\r` OR `\\r` without `\\n`"
    );
}

#[test]
fn null_forms() {
    assert_eq!(decoded(b"_\r\n").unwrap(), (Frame::Null, 3));
    assert_eq!(decoded(b"$-1\r\n").unwrap(), (Frame::Null, 5));
    assert_eq!(decoded(b"_anything\r\n").unwrap(), (Frame::Null, 11));
}

#[test]
fn unsupported_and_empty() {
    assert!(matches!(decoded(b""), Err(RedisProtocolError::NotEnoughData)));
    assert!(matches!(decoded(b"^123\r\n"), Err(RedisProtocolError::UnsupportedFrame(94))));
    assert!(matches!(decoded(b"\r\n"), Err(RedisProtocolError::UnsupportedFrame(13))));
    assert_eq!(
        RedisProtocolError::NotEnoughData.message(),
        "Not enough data has been buffered to parse the frame."
    );
}

#[test]
fn text_that_is_no_utf8_is_read_lossily() {
    let (frame, len) = decoded(b"+a\xffb\r\n").unwrap();
    assert_eq!(frame, Frame::Simple("a\u{FFFD}b".to_string()));
    assert_eq!(len, 6);
    match decoded(b":\xff\r\n") {
        Err(RedisProtocolError::ConversionError(text)) => assert_eq!(text, "\u{FFFD}"),
        other => panic!("Expected ConversionError. Got: {:?}", other),
    }
}

#[test]
fn parse_leaves_the_cursor_behind_the_frame() {
    let data = b"+one\r\n:2\r\n$5\r\nthree\r\n";
    let mut cursor = Cursor::new(&data[..]);
    assert_eq!(Frame::parse(&mut cursor).unwrap(), Frame::Simple("one".to_string()));
    assert_eq!(cursor.position(), 6);
    assert_eq!(Frame::parse(&mut cursor).unwrap(), Frame::Integer(2));
    assert_eq!(cursor.position(), 10);
    assert!(Frame::is_parsable(&mut cursor).is_ok());
    assert_eq!(cursor.position(), 21);
    assert!(!cursor.has_remaining());
    assert!(matches!(Frame::parse(&mut cursor), Err(RedisProtocolError::NotEnoughData)));
}

#[test]
fn append_to_array() {
    let mut frame = Frame::Array(vec![Frame::Integer(1)]);
    assert!(frame.append(Frame::Null).is_ok());
    assert_eq!(frame, Frame::Array(vec![Frame::Integer(1), Frame::Null]));

    let mut frame = Frame::Integer(1);
    let e = frame.append(Frame::Null).unwrap_err();
    assert_eq!(e.message(), "Invalid frame format: Cannot append to a non-Array Frame");
    assert_eq!(frame, Frame::Integer(1));
}

#[test]
fn cursor_basics() {
    let data = b"abc";
    let mut cursor = Cursor::new(&data[..]);
    assert_eq!(cursor.position(), 0);
    assert_eq!(cursor.remaining(), 3);
    assert_eq!(cursor.len(), 3);
    assert_eq!(cursor.peek(2), b'c');
    assert_eq!(cursor.get_u8(), b'a');
    assert_eq!(cursor.position(), 1);
    cursor.advance(1);
    assert_eq!(cursor.get_u8(), b'c');
    assert!(!cursor.has_remaining());
    cursor.set_position(10);
    assert!(!cursor.has_remaining());
    assert_eq!(cursor.remaining(), 0);
    cursor.set_position(1);
    assert_eq!(cursor.remaining(), 2);
    assert_eq!(cursor.get_ref(), b"abc");
    assert_eq!(cursor.slice(1, 3), b"bc");
    assert_eq!(get_byte_slice(&cursor, 0, 1), b"ab");
}

#[test]
fn line_helpers() {
    let data = b"ab\r\ncd";
    let mut cursor = Cursor::new(&data[..]);
    assert!(!is_crlf(&mut cursor));
    assert_eq!(cursor.position(), 1);
    cursor.set_position(2);
    assert!(is_crlf(&mut cursor));
    assert_eq!(cursor.position(), 4);

    cursor.set_position(0);
    assert!(has_crlf(&mut cursor).is_ok());
    assert_eq!(cursor.position(), 4);
    assert!(matches!(has_crlf(&mut cursor), Err(RedisProtocolError::NotEnoughData)));

    cursor.set_position(0);
    assert_eq!(seek_newline(&mut cursor).unwrap(), 2);
    assert_eq!(cursor.position(), 4);

    cursor.set_position(1);
    assert_eq!(get_line(&mut cursor).unwrap(), b"b");
    assert_eq!(cursor.position(), 4);
    assert!(matches!(get_line(&mut cursor), Err(RedisProtocolError::NotEnoughData)));

    cursor.set_position(0);
    assert!(has_crlf_with_checks(&mut cursor).is_ok());
    assert_eq!(cursor.position(), 4);

    // A carriage return that starts no line break does not hide the one
    // behind it.
    let data = b"a\r\r\nb";
    let mut cursor = Cursor::new(&data[..]);
    assert_eq!(seek_newline(&mut cursor).unwrap(), 2);
    assert_eq!(cursor.position(), 4);
    cursor.set_position(0);
    assert!(matches!(
        has_crlf_with_checks(&mut cursor),
        Err(RedisProtocolError::ExcessiveNewline)
    ));
}

#[test]
fn number_texts() {
    for good in [&b"0"[..], b"-1", b"+1", b"007", b"123456789012345678901234567890"] {
        assert!(is_number_text(good), "{:?}", good);
    }
    for bad in [&b""[..], b"-", b"+", b"1a", b"a1", b" 1", b"1 ", b"--1", b"1-", b"1\r"] {
        assert!(!is_number_text(bad), "{:?}", bad);
    }
    assert_eq!(read_integer(b"-42").unwrap(), -42);
    assert_eq!(read_integer(b"+42").unwrap(), 42);
    assert_eq!(read_integer(b"9223372036854775807").unwrap(), i64::MAX);
    assert_eq!(read_integer(b"-9223372036854775808").unwrap(), i64::MIN);
    assert!(read_integer(b"9223372036854775808").is_err());
    assert!(read_integer(b"42 is the answer").is_err());
    assert_eq!(read_count(b"3").unwrap(), 3);
    assert_eq!(read_count(b"-0").unwrap(), 0);
    assert!(read_count(b"-3").is_err());
    assert_eq!(read_count(usize::MAX.to_string().as_bytes()).unwrap(), usize::MAX);
    assert!(read_count(b"340282366920938463463374607431768211456").is_err());
}
