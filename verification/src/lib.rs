//! An in-memory key/value store that speaks the RESP2 wire protocol, without
//! its sockets: the codec for frames, the state of a connection, the
//! commands, and the keyspace with its deadlines. Whoever owns the sockets
//! and the clock hands bytes and times in, and gets bytes back.

use vstd::prelude::*;

pub mod cmd;
pub mod common;
pub mod connection;
pub mod constants;
pub mod cursor;
pub mod db;
pub mod err;
pub mod frame;
pub mod laws;
pub mod roundtrip;
pub mod server;
pub mod stream;
pub mod text;
pub mod trusted;
pub mod wire;

pub use cmd::Command;
pub use connection::Connection;
pub use cursor::Cursor;
pub use db::DB;
pub use frame::Frame;
