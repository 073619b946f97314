use redis_clone::cmd::Command;
use redis_clone::common::bytes_to_i64;
use redis_clone::connection::{Connection, Incoming};
use redis_clone::constants::MAX_CLIENTS;
use redis_clone::db::DB;
use redis_clone::frame::Frame;
use redis_clone::server::{admission, handle_frame, ClientGuard};
use std::sync::atomic::{AtomicUsize, Ordering};
use std::sync::Arc;

fn simple(s: &str) -> Frame {
    Frame::Simple(s.to_string())
}

fn bulk(s: &str) -> Frame {
    Frame::Bulk(s.as_bytes().to_vec())
}

/// A server with its clock, reached by a client over two connections' worth
/// of bytes: every request is written, read on the other side, served, and
/// the reply comes back the same way.
struct TestServer {
    db: DB,
    now: u64,
    client_side: Connection,
    server_side: Connection,
}

impl TestServer {
    fn new() -> Self {
        TestServer {
            db: DB::new(),
            now: 0,
            client_side: Connection::new(),
            server_side: Connection::new(),
        }
    }

    fn execute(&mut self, command: Command) -> Option<Frame> {
        self.client_side.write_frame(&command.into_frame());
        let request = self.client_side.take_output();
        self.server_side.receive(&request);
        match self.server_side.read_frame(false).unwrap() {
            Incoming::Frame(frame) => {
                let reply = handle_frame(frame, &mut self.db, self.now);
                self.server_side.write_frame(&reply);
            }
            _ => panic!("a whole request was sent"),
        }
        let reply = self.server_side.take_output();
        self.client_side.receive(&reply);
        match self.client_side.read_frame(false).unwrap() {
            Incoming::Frame(frame) => Some(frame),
            _ => None,
        }
    }

    fn ping(&mut self, msg: Option<String>) -> Option<Frame> {
        self.execute(Command::Ping { msg })
    }

    fn get(&mut self, key: String) -> Option<Frame> {
        self.execute(Command::Get { key })
    }

    fn set(&mut self, key: String, val: Vec<u8>, expiration: Option<u128>) -> Option<Frame> {
        self.execute(Command::SetKey { key, val, expiration })
    }

    fn del(&mut self, keys: Vec<String>) -> Option<Frame> {
        self.execute(Command::Del { keys })
    }

    fn exists_keys(&mut self, keys: Vec<String>) -> Option<Frame> {
        self.execute(Command::Exists { keys })
    }

    fn incr(&mut self, key: String) -> Option<Frame> {
        self.execute(Command::Increment { key })
    }

    fn flushdb(&mut self) -> Option<Frame> {
        self.execute(Command::FlushDB)
    }

    fn dbsize(&mut self) -> Option<Frame> {
        self.execute(Command::DBSize)
    }

    fn keys(&mut self, pattern: String) -> Option<Frame> {
        self.execute(Command::Keys { pattern })
    }

    fn expire(&mut self, key: String, seconds: u64) -> Option<Frame> {
        self.execute(Command::Expire { key, seconds })
    }

    fn lolwut(&mut self, frames: Vec<Frame>) -> Option<Frame> {
        self.execute(Command::Lolwut(frames))
    }

    fn ttl(&mut self, key: String) -> Option<Frame> {
        self.execute(Command::TTL { key })
    }

    fn set_key_value(&mut self, key: &str, value: &str) {
        let response = self.set(key.to_string(), value.as_bytes().to_vec(), None).unwrap();
        assert_eq!(response, simple("OK"));
    }

    /// Lets time pass, with the sweeps that the server makes meanwhile.
    fn sleep(&mut self, millis: u64) {
        let until = self.now + millis;
        while self.now < until {
            self.now += 100;
            self.db.remove_expired(self.now);
        }
    }
}

#[test]
fn guards_count_clients_in_and_out() {
    let counter = Arc::new(AtomicUsize::new(0));
    for _ in 0..2 {
        let mut guards = Vec::new();
        for served in 0..MAX_CLIENTS {
            assert_eq!(counter.load(Ordering::SeqCst), served);
            assert!(admission(counter.load(Ordering::SeqCst)).is_none());
            guards.push(ClientGuard::new(Arc::clone(&counter)));
        }
        assert_eq!(counter.load(Ordering::SeqCst), MAX_CLIENTS);
        assert!(admission(counter.load(Ordering::SeqCst)).is_some());

        // One client leaves, and one can come.
        guards.pop();
        assert_eq!(counter.load(Ordering::SeqCst), MAX_CLIENTS - 1);
        assert!(admission(counter.load(Ordering::SeqCst)).is_none());

        drop(guards);
        assert_eq!(counter.load(Ordering::SeqCst), 0);
    }
}

#[test]
fn max_clients() {
    for active in 0..MAX_CLIENTS {
        assert!(admission(active).is_none());
    }
    let refusal = admission(MAX_CLIENTS);
    assert_eq!(
        refusal,
        Some(Frame::Error("max number of clients reached".to_string()))
    );
    assert!(admission(MAX_CLIENTS + 1).is_some());
    assert!(admission(usize::MAX).is_some());
    assert_eq!(MAX_CLIENTS, 50);
}

#[test]
fn ping() {
    let mut client = TestServer::new();

    let response = client.ping(None).unwrap();
    assert_eq!(response, simple("PONG"));

    let response = client.ping(Some("Hello, Redis!".to_string())).unwrap();
    assert_eq!(response, simple("Hello, Redis!"));
}

#[test]
fn del_exists() {
    let mut client = TestServer::new();

    let keys = vec!["key1", "key2", "key3"];
    for key in &keys {
        client.set_key_value(key, "value");
    }

    let response = client.exists_keys(keys.iter().map(|s| s.to_string()).collect()).unwrap();
    assert_eq!(response, Frame::Integer(3));

    let response = client.del(keys.iter().map(|s| s.to_string()).collect()).unwrap();
    assert_eq!(response, Frame::Integer(3));

    for key in &keys {
        let response = client.exists_keys(vec![key.to_string()]).unwrap();
        assert_eq!(response, Frame::Integer(0));
    }
}

#[test]
fn concurrent_increment() {
    // The increments of all clients reach the keyspace one at a time, in
    // some order: here client by client within each round.
    const NUM_CLIENTS: usize = 10;
    const OPS_PER_CLIENT: usize = 100;
    let shared_key = "key";

    let mut server = TestServer::new();
    for _ in 0..OPS_PER_CLIENT {
        for _ in 0..NUM_CLIENTS {
            let response = server.incr(shared_key.to_string());
            assert!(response.is_some());
            assert!(matches!(response.unwrap(), Frame::Integer(_)));
        }
    }

    let response = server.get(shared_key.to_string()).unwrap();
    let expected = (NUM_CLIENTS * OPS_PER_CLIENT) as i64;
    match response {
        Frame::Bulk(bytes) => assert_eq!(bytes_to_i64(&bytes).unwrap(), expected),
        frame => panic!("Expected bulk frame. Got: {:?}", frame),
    };
}

#[test]
fn stress_test_single_client() {
    let mut client = TestServer::new();
    let num_tasks = 256;

    for task_id in 0..num_tasks {
        let key = format!("test_key_that_is_very_very_long_{}", task_id);
        let value = format!("test_value_{}", task_id);
        client.set_key_value(&key, &value);
        client.incr(format!("counter_{}", task_id)).expect("Increment failed");
        let result = client.get(key.clone());
        assert!(result.is_some(), "Get should return a value");
    }

    let keys_result = client.keys("test_key_*".to_string());
    match keys_result {
        Some(Frame::Array(keys)) => assert_eq!(keys.len(), num_tasks, "Not all keys were created"),
        other => panic!("Expected array frame. Got: {:?}", other),
    }

    let size = client.dbsize().expect("Expected DBSIZE response");
    assert_eq!(size, Frame::Integer((2 * num_tasks) as i64));

    let response = client.flushdb().expect("Expected FLUSH response");
    assert_eq!(response, simple("OK"));

    let size = client.dbsize().expect("Expected DBSIZE response");
    assert_eq!(size, Frame::Integer(0));
}

#[test]
fn keys() {
    let mut client = TestServer::new();

    let keys = vec!["key1", "key2", "key3"];
    for key in &keys {
        client.set_key_value(key, "value");
    }

    let response = client.keys("*".to_string()).unwrap();
    match response {
        Frame::Array(frames) => {
            let actual_keys = frames
                .iter()
                .map(|frame| match frame {
                    Frame::Bulk(bytes) => String::from_utf8(bytes.to_vec()).unwrap(),
                    frame => panic!("Expected bulk frame. Got: {:?}", frame),
                })
                .collect::<Vec<_>>();
            assert_eq!(actual_keys.len(), keys.len());
            for key in &keys {
                assert!(actual_keys.contains(&key.to_string()));
            }
        }
        frame => panic!("Expected array frame. Got: {:?}", frame),
    }
}

#[test]
fn keys_with_pattern() {
    let mut client = TestServer::new();

    let keys_to_match = vec!["k1y", "k2y", "k3y"];
    let other_keys = vec!["foo", "bar", "foobar"];
    for key in keys_to_match.iter().chain(&other_keys) {
        client.set_key_value(key, "value");
    }

    let response = client.keys("k?y".to_string()).unwrap();
    match response {
        Frame::Array(frames) => {
            let actual_keys = frames
                .iter()
                .map(|frame| match frame {
                    Frame::Bulk(bytes) => String::from_utf8(bytes.to_vec()).unwrap(),
                    frame => panic!("Expected bulk frame. Got: {:?}", frame),
                })
                .collect::<Vec<_>>();
            assert_eq!(actual_keys.len(), keys_to_match.len());
            for key in &keys_to_match {
                assert!(actual_keys.contains(&key.to_string()));
            }
        }
        frame => panic!("Expected array frame. Got: {:?}", frame),
    }

    let response = client.keys("[fb]?[or]".to_string()).unwrap();
    match response {
        Frame::Array(frames) => {
            assert_eq!(frames.len(), 2);
            assert!(frames.contains(&bulk("foo")));
            assert!(frames.contains(&bulk("bar")));
        }
        frame => panic!("Expected array frame. Got: {:?}", frame),
    }
}

#[test]
fn keys_with_bad_pattern() {
    let mut client = TestServer::new();
    client.set_key_value("key", "value");
    let response = client.keys("[".to_string()).unwrap();
    assert_eq!(
        response,
        Frame::Error("ERR Pattern syntax error near position 0: invalid range pattern".to_string())
    );
    let response = client.keys("a***b".to_string()).unwrap();
    assert!(matches!(response, Frame::Error(text) if text.starts_with("ERR ")));
}

#[test]
fn keys_leaves_expired_keys_out() {
    let mut client = TestServer::new();
    client.set("short".to_string(), b"v".to_vec(), Some(10));
    client.set("long".to_string(), b"v".to_vec(), Some(1_000));
    client.set_key_value("forever", "v");
    client.now = 10;
    let response = client.keys("*".to_string()).unwrap();
    match response {
        Frame::Array(frames) => {
            assert_eq!(frames.len(), 2);
            assert!(frames.contains(&bulk("long")));
            assert!(frames.contains(&bulk("forever")));
        }
        frame => panic!("Expected array frame. Got: {:?}", frame),
    }
}

#[test]
fn flushdb() {
    let mut client = TestServer::new();

    let keys = vec!["key1", "key2", "key3"];
    for key in &keys {
        client.set_key_value(key, "value");
    }

    let response = client.flushdb().unwrap();
    assert_eq!(response, simple("OK"));

    for key in &keys {
        let response = client.get(key.to_string()).unwrap();
        assert_eq!(response, Frame::Null);
    }
}

#[test]
fn expire() {
    let mut client = TestServer::new();

    // Attempt to set expiration on a non-existent key
    let response = client.expire("non-existent".to_string(), 1).unwrap();
    assert_eq!(response, Frame::Integer(0));

    let key = "key";
    client.set_key_value(key, "value");

    // No expiration, TTL should be -1
    let response = client.ttl(key.to_string()).unwrap();
    assert_eq!(response, Frame::Integer(-1));

    let response = client.expire(key.to_string(), 1).unwrap();
    assert_eq!(response, Frame::Integer(1));

    // Wait for the key to expire
    client.sleep(2_000);

    // Verify that the key has been removed
    let response = client.dbsize().unwrap();
    assert_eq!(response, Frame::Integer(0));

    // Double check
    let response = client.get(key.to_string()).unwrap();
    assert_eq!(response, Frame::Null);
}

#[test]
fn lolwut() {
    let mut client = TestServer::new();

    let frames = vec![
        Frame::Array(vec![bulk("Hello, Redis!"), bulk("Hello, World!")]),
        Frame::Array(vec![Frame::Integer(42), Frame::Integer(1337)]),
    ];

    let response = client.lolwut(frames).unwrap();
    assert!(matches!(response, Frame::Array(_)));

    let expected = Frame::Array(vec![
        Frame::Array(vec![bulk("Hello, Redis!"), bulk("Hello, World!")]),
        Frame::Array(vec![Frame::Integer(42), Frame::Integer(1337)]),
        simple("https://youtu.be/dQw4w9WgXcQ?si=9GzI0HV44IG4_rPi"),
    ]);
    assert_eq!(response, expected);
}

#[test]
fn set_with_expiration() {
    let mut client = TestServer::new();

    let key = "key";
    let expiration: u128 = 1500;
    let value = "that will expire in 1500 milliseconds";
    let response = client
        .set(key.to_string(), value.as_bytes().to_vec(), Some(expiration))
        .unwrap();
    assert_eq!(response, simple("OK"));

    // Verify that the key exists
    let response = client.get(key.to_string()).unwrap();
    assert_eq!(response, bulk(value));

    // TTL: a second and a half is left, and the second that has begun counts.
    let response = client.ttl(key.to_string()).unwrap();
    assert_eq!(response, Frame::Integer(2));
    client.now = 500;
    let response = client.ttl(key.to_string()).unwrap();
    assert_eq!(response, Frame::Integer(1));
    client.now = 0;

    // Wait for the key to expire
    client.sleep(2_000);

    // Verify that the key has been removed
    let response = client.get(key.to_string()).unwrap();
    assert_eq!(response, Frame::Null);

    // Double check
    let response = client.ttl(key.to_string()).unwrap();
    assert_eq!(response, Frame::Integer(-2));
}

#[test]
fn ttl_after_flush() {
    let mut client = TestServer::new();

    let key = "key".to_string();
    let _ = client.set(key.clone(), b"abcd".to_vec(), Some(60_000));

    client.now = 1_234;
    let response = client.ttl(key.clone()).unwrap();
    assert!(matches!(response, Frame::Integer(i) if i > 55));
    assert_eq!(response, Frame::Integer(59));

    let response = client.flushdb().unwrap();
    assert_eq!(response, simple("OK"));

    let response = client.ttl(key).unwrap();
    assert_eq!(response, Frame::Integer(-2));
}

#[test]
fn ttl_in_the_last_second() {
    let mut client = TestServer::new();
    let _ = client.set("key".to_string(), b"v".to_vec(), Some(2_000));
    client.now = 0;
    assert_eq!(client.ttl("key".to_string()).unwrap(), Frame::Integer(2));
    client.now = 999;
    assert_eq!(client.ttl("key".to_string()).unwrap(), Frame::Integer(2));
    client.now = 1_000;
    assert_eq!(client.ttl("key".to_string()).unwrap(), Frame::Integer(1));
    client.now = 1_001;
    assert_eq!(client.ttl("key".to_string()).unwrap(), Frame::Integer(1));
    client.now = 1_999;
    assert_eq!(client.ttl("key".to_string()).unwrap(), Frame::Integer(1));
    client.now = 2_000;
    assert_eq!(client.ttl("key".to_string()).unwrap(), Frame::Integer(-2));
}

#[test]
fn set_without_option_clears_the_deadline() {
    let mut client = TestServer::new();
    let _ = client.set("key".to_string(), b"v".to_vec(), Some(2_000));
    client.set_key_value("key", "w");
    client.sleep(5_000);
    assert_eq!(client.ttl("key".to_string()).unwrap(), Frame::Integer(-1));
    assert_eq!(client.get("key".to_string()).unwrap(), bulk("w"));
}

#[test]
fn unknown_command_is_named_as_it_came() {
    let mut client = TestServer::new();
    let response = client.execute(Command::Unknown("FooBar".to_string())).unwrap();
    assert_eq!(
        response,
        Frame::Error("ERR Invalid or unimplemented command: FooBar".to_string())
    );
}
