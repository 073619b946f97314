use redis_clone::connection::{Connection, Incoming};
use redis_clone::db::DB;
use redis_clone::err::RedisProtocolError;
use redis_clone::frame::Frame;
use redis_clone::server::{
    handle_client_connection, handle_frame, ConnectionAction, ConnectionEvent,
};

fn bulk(s: &str) -> Frame {
    Frame::Bulk(s.as_bytes().to_vec())
}

/// Writing nested arrays, and reading them back.
#[test]
fn write_nested_array() {
    let mut db = DB::new();
    let mut conn = Connection::new();

    let command = Frame::Array(vec![
        bulk("LOLWUT"),
        Frame::Array(vec![bulk("Hello, Redis!"), bulk("Hello, World!")]),
        Frame::Array(vec![Frame::Integer(42), Frame::Integer(1337)]),
    ]);
    conn.write_frame(&command);
    let sent = conn.take_output();
    assert_eq!(
        sent,
        b"*3\r\n$6\r\nLOLWUT\r\n*2\r\n$13\r\nHello, Redis!\r\n$13\r\nHello, World!\r\n*2\r\n:42\r\n:1337\r\n"
            .to_vec()
    );

    let mut server_side = Connection::new();
    server_side.receive(&sent);
    let request = match server_side.read_frame(false).unwrap() {
        Incoming::Frame(frame) => frame,
        other => panic!("Expected a frame. Got: {:?}", other),
    };
    let reply = handle_frame(request, &mut db, 0);
    server_side.write_frame(&reply);
    conn.receive(&server_side.take_output());

    let expected = Frame::Array(vec![
        Frame::Array(vec![bulk("Hello, Redis!"), bulk("Hello, World!")]),
        Frame::Array(vec![Frame::Integer(42), Frame::Integer(1337)]),
        Frame::Simple("https://youtu.be/dQw4w9WgXcQ?si=9GzI0HV44IG4_rPi".to_string()),
    ]);
    match conn.read_frame(false).unwrap() {
        Incoming::Frame(result) => assert_eq!(result, expected),
        other => panic!("Expected a frame. Got: {:?}", other),
    }
}

fn frames_of(pieces: &[&[u8]]) -> Vec<Frame> {
    let mut conn = Connection::new();
    let mut frames = Vec::new();
    for piece in pieces {
        conn.receive(piece);
        while let Incoming::Frame(frame) = conn.read_frame(false).unwrap() {
            frames.push(frame);
        }
    }
    frames
}

#[test]
fn any_split_reads_the_same() {
    let stream: &[u8] =
        b"*2\r\n$3\r\nGET\r\n$1\r\nk\r\n+OK\r\n:-12\r\n$4\r\na\r\nb\r\n*2\r\n*1\r\n_\r\n$-1\r\n-ERR x\r\n";
    let whole = frames_of(&[stream]);
    assert_eq!(
        whole,
        vec![
            Frame::Array(vec![bulk("GET"), bulk("k")]),
            Frame::Simple("OK".to_string()),
            Frame::Integer(-12),
            bulk("a\r\nb"),
            Frame::Array(vec![Frame::Array(vec![Frame::Null]), Frame::Null]),
            Frame::Error("ERR x".to_string()),
        ]
    );

    // Byte by byte.
    let bytes: Vec<&[u8]> = stream.chunks(1).collect();
    assert_eq!(frames_of(&bytes), whole);

    // Cut in two at every place.
    for cut in 0..=stream.len() {
        assert_eq!(frames_of(&[&stream[..cut], &stream[cut..]]), whole);
    }

    // In pieces of every length.
    for size in 1..stream.len() {
        let pieces: Vec<&[u8]> = stream.chunks(size).collect();
        assert_eq!(frames_of(&pieces), whole);
    }
}

#[test]
fn read_frame_waits_for_a_whole_frame() {
    let mut conn = Connection::new();
    assert!(matches!(conn.read_frame(false), Ok(Incoming::Pending)));
    conn.receive(b"$5\r\nhel");
    assert!(matches!(conn.read_frame(false), Ok(Incoming::Pending)));
    assert!(matches!(conn.parse_frame(), Ok(None)));
    conn.receive(b"lo\r\n+");
    match conn.read_frame(false).unwrap() {
        Incoming::Frame(frame) => assert_eq!(frame, bulk("hello")),
        other => panic!("Expected a frame. Got: {:?}", other),
    }
    assert!(matches!(conn.read_frame(false), Ok(Incoming::Pending)));
}

#[test]
fn end_of_stream() {
    // A clean end: nothing is left unread.
    let mut conn = Connection::new();
    assert!(matches!(conn.read_frame(true), Ok(Incoming::Closed)));

    // Whole frames are still read after the stream has ended.
    let mut conn = Connection::new();
    conn.receive(b"+OK\r\n");
    assert!(matches!(conn.read_frame(true), Ok(Incoming::Frame(_))));
    assert!(matches!(conn.read_frame(true), Ok(Incoming::Closed)));

    // The stream ended in the middle of a frame.
    let mut conn = Connection::new();
    conn.receive(b"+OK");
    assert!(matches!(conn.read_frame(false), Ok(Incoming::Pending)));
    let reset = conn.read_frame(true).unwrap_err();
    assert!(matches!(reset, RedisProtocolError::ConnectionReset));
    assert_eq!(reset.message(), "Connection reset by client.");
    assert!(reset.is_fatal());
}

#[test]
fn protocol_errors_are_fatal() {
    let mut conn = Connection::new();
    conn.receive(b"^123\r\n");
    let e = conn.read_frame(false).unwrap_err();
    assert!(matches!(e, RedisProtocolError::UnsupportedFrame(94)));
    assert!(e.is_fatal());
    assert_eq!(e.message(), "Unsupported frame type: `94_u8`");
    assert!(!RedisProtocolError::NotEnoughData.is_fatal());
}

#[test]
fn output_is_kept_until_taken() {
    let mut conn = Connection::new();
    conn.write_frame(&Frame::Simple("OK".to_string()));
    conn.write_frame(&Frame::Null);
    assert_eq!(conn.take_output(), b"+OK\r\n$-1\r\n".to_vec());
    assert_eq!(conn.take_output(), Vec::<u8>::new());
}

#[test]
fn connection_events() {
    let mut db = DB::new();
    let request = Frame::Array(vec![bulk("SET"), bulk("k"), bulk("v")]);
    match handle_client_connection(ConnectionEvent::Request(request), &mut db, 0) {
        ConnectionAction::Reply(frame) => assert_eq!(frame, Frame::Simple("OK".to_string())),
        ConnectionAction::Close => panic!("a request is replied to"),
    }
    assert_eq!(db.size(), 1);
    for event in [
        ConnectionEvent::EndOfStream,
        ConnectionEvent::IdleTimeout,
        ConnectionEvent::Shutdown,
    ] {
        assert!(matches!(
            handle_client_connection(event, &mut db, 0),
            ConnectionAction::Close
        ));
    }
    assert_eq!(db.size(), 1);
    let garbage = Frame::Integer(1);
    match handle_client_connection(ConnectionEvent::Request(garbage), &mut db, 0) {
        ConnectionAction::Reply(frame) => assert_eq!(
            frame,
            Frame::Error("ERR Invalid frame format: Expected array frame".to_string())
        ),
        ConnectionAction::Close => panic!("a request is replied to"),
    }
}
