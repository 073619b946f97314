//! What the server does with a request: the reply it gives and the change it
//! makes to the keyspace; whom it admits; and what a connection does next.

use vstd::prelude::*;
use vstd::string::*;
use vstd::utf8::encode_utf8;
use std::sync::Arc;
use std::sync::atomic::AtomicUsize;
use std::sync::atomic::Ordering;
use crate::cmd::{bulks, command_of, Command, CommandView};
use crate::constants::MAX_CLIENTS;
use crate::db::{
    after_increment, deadline_after, increment_of, matching_keys, time_to_live, visible, ItemView,
    Keyspace, DB,
};
use crate::err::{CommandErrorView, RedisCommandError};
use crate::frame::{frame_views, Frame, FrameView};
use crate::text::texts;
use crate::trusted::{glob_accepts, glob_fault};

verus! {

/// The text that `LOLWUT` puts behind its arguments.
pub open spec fn lolwut_text() -> Seq<char> {
    "https://youtu.be/dQw4w9WgXcQ?si=9GzI0HV44IG4_rPi"@
}

/// A count as the integer of a reply: itself, or the largest integer there is
/// where it exceeds that.
pub open spec fn reply_count(n: nat) -> i64 {
    if n > i64::MAX {
        i64::MAX
    } else {
        n as i64
    }
}

/// The whole seconds that `left` milliseconds come to, a second that has
/// begun counted in full: a key that is still there has at least one second
/// to live.
pub open spec fn seconds_left(left: u128) -> nat {
    ((left + 999) / 1000) as nat
}

/// How many of `keys`, each counted as often as it stands there, are visible
/// at the time `now`.
pub open spec fn visible_count(space: Keyspace, keys: Seq<Seq<char>>, now: u64) -> nat
    decreases keys.len(),
{
    if keys.len() == 0 {
        0
    } else {
        visible_count(space, keys.drop_last(), now) + if visible(space, keys.last(), now) {
            1nat
        } else {
            0nat
        }
    }
}

/// The keyspace without every key of `keys`.
pub open spec fn without(space: Keyspace, keys: Seq<Seq<char>>) -> Keyspace {
    space.remove_keys(keys.to_set())
}

/// The reply that reports an error: `ERR ` and the error's text.
pub open spec fn error_reply(message: Seq<char>) -> FrameView {
    FrameView::Error("ERR "@ + message)
}

/// The keyspace once a command was carried out at the time `now`.
pub open spec fn state_after(command: CommandView, space: Keyspace, now: u64) -> Keyspace {
    match command {
        CommandView::SetKey { key, val, expiration } => space.insert(
            key,
            ItemView {
                value: val,
                deadline: match expiration {
                    Some(ttl) => Some(deadline_after(now, ttl)),
                    None => None,
                },
            },
        ),
        CommandView::Del { keys } => without(space, keys),
        CommandView::Increment { key } => after_increment(space, key, now),
        CommandView::FlushDB => Keyspace::empty(),
        CommandView::Expire { key, seconds } => if space.contains_key(key) {
            space.insert(
                key,
                ItemView {
                    value: space[key].value,
                    deadline: Some(deadline_after(now, (seconds * 1000) as u128)),
                },
            )
        } else {
            space
        },
        _ => space,
    }
}

/// Whether `reply` is the reply that a command gets when it is carried out on
/// `space` at the time `now`.
///
/// Every reply is stated in full but one: `KEYS` replies with the keys it
/// found in no stated order.
pub open spec fn replies(command: CommandView, space: Keyspace, now: u64, reply: FrameView) -> bool {
    match command {
        CommandView::Get { key } => reply == if visible(space, key, now) {
            FrameView::Bulk(space[key].value)
        } else {
            FrameView::Null
        },
        CommandView::SetKey { key, val, expiration } => reply == FrameView::Simple("OK"@),
        CommandView::Ping { msg } => reply == match msg {
            Some(text) => FrameView::Simple(text),
            None => FrameView::Simple("PONG"@),
        },
        CommandView::Del { keys } => reply == FrameView::Integer(
            reply_count((space.dom().len() - without(space, keys).dom().len()) as nat),
        ),
        CommandView::Exists { keys } => reply == FrameView::Integer(
            reply_count(visible_count(space, keys, now)),
        ),
        CommandView::Increment { key } => reply == match increment_of(space, key, now) {
            Ok(n) => FrameView::Integer(n),
            Err(e) => error_reply(e.message()),
        },
        CommandView::Keys { pattern } => if glob_accepts(pattern) {
            exists|names: Seq<Seq<char>>| #[trigger]
                matching_keys(space, pattern, now, names) && reply == FrameView::Array(bulks(names))
        } else {
            reply == error_reply(glob_fault(pattern)->0)
        },
        CommandView::FlushDB => reply == FrameView::Simple("OK"@),
        CommandView::DBSize => reply == FrameView::Integer(reply_count(space.dom().len())),
        CommandView::Unknown(name) => reply == error_reply(
            CommandErrorView::InvalidCommand(name).message(),
        ),
        CommandView::Lolwut(args) => reply == FrameView::Array(
            args.push(FrameView::Simple(lolwut_text())),
        ),
        CommandView::Expire { key, seconds } => reply == FrameView::Integer(
            if space.contains_key(key) {
                1i64
            } else {
                0i64
            },
        ),
        CommandView::TTL { key } => reply == FrameView::Integer(
            match time_to_live(space, key, now) {
                Err(_) => -2i64,
                Ok(None) => -1i64,
                Ok(Some(left)) => reply_count(seconds_left(left)),
            },
        ),
    }
}

/// A count as the integer of a reply.
fn count_reply(n: usize) -> (frame: Frame)
    ensures
        frame@ == FrameView::Integer(reply_count(n as nat)),
{
    if n as u128 > i64::MAX as u128 {
        Frame::Integer(i64::MAX)
    } else {
        Frame::Integer(n as i64)
    }
}

/// The reply that reports an error: `ERR ` and the error's text.
fn error_frame(message: &str) -> (frame: Frame)
    ensures
        frame@ == error_reply(message@),
{
    let mut text = String::from_str("ERR ");
    text.append(message);
    Frame::Error(text)
}

/// The bulk string of a text.
fn bulk_of(text: &str) -> (frame: Frame)
    ensures
        frame@ == FrameView::Bulk(encode_utf8(text@)),
{
    Frame::Bulk(text.as_bytes_vec())
}

/// Removes each of `keys` and counts those that were there.
fn remove_all(db: &mut DB, keys: &Vec<String>) -> (removed: usize)
    requires
        old(db).wf(),
    ensures
        final(db).wf(),
        final(db)@ == without(old(db)@, texts(keys@)),
        removed == old(db)@.dom().len() - final(db)@.dom().len(),
        final(db).is_stopped() == old(db).is_stopped(),
{
    let ghost start = db@;
    let ghost names = texts(keys@);
    proof {
        db.lemma_finite();
        assert(names.take(0) =~= Seq::<Seq<char>>::empty());
        assert(names.take(0).to_set() =~= Set::<Seq<char>>::empty());
        assert(start.remove_keys(Set::<Seq<char>>::empty()) =~= start);
    }
    let mut removed: usize = 0;
    let mut i: usize = 0;
    while i < keys.len()
        invariant
            db.wf(),
            i <= keys@.len(),
            names == texts(keys@),
            start.dom().finite(),
            start.dom().len() <= usize::MAX,
            db.is_stopped() == old(db).is_stopped(),
            db@ == without(start, names.take(i as int)),
            removed + db@.dom().len() == start.dom().len(),
        decreases keys@.len() - i,
    {
        let ghost before = db@;
        proof {
            db.lemma_finite();
        }
        let gone = db.remove(keys[i].as_str());
        proof {
            let key = keys@[i as int]@;
            assert(names[i as int] == key);
            assert(names.take(i + 1) =~= names.take(i as int).push(key));
            assert(names.take(i + 1).to_set() =~= names.take(i as int).to_set().insert(key)) by {
                let a = names.take(i + 1);
                let b = names.take(i as int);
                assert forall|k: Seq<char>| a.to_set().contains(k) <==> b.to_set().insert(
                    key,
                ).contains(k) by {
                    if a.contains(k) {
                        let j = choose|j: int| 0 <= j < a.len() && a[j] == k;
                        if j < b.len() {
                            assert(b[j] == k);
                        }
                    }
                    if b.contains(k) {
                        let j = choose|j: int| 0 <= j < b.len() && b[j] == k;
                        assert(a[j] == k);
                    }
                    if k == key {
                        assert(a[i as int] == k);
                    }
                }
            }
            assert(db@ =~= without(start, names.take(i + 1)));
            db.lemma_finite();
        }
        if gone.is_some() {
            removed += 1;
        }
        i += 1;
    }
    assert(names.take(keys@.len() as int) =~= names);
    removed
}

/// Counts those of `keys` that are visible at the time `now`.
fn count_visible(db: &DB, keys: &Vec<String>, now: u64) -> (count: usize)
    requires
        db.wf(),
    ensures
        count == visible_count(db@, texts(keys@), now),
{
    let ghost names = texts(keys@);
    assert(names.take(0) =~= Seq::<Seq<char>>::empty());
    let mut count: usize = 0;
    let mut i: usize = 0;
    while i < keys.len()
        invariant
            db.wf(),
            i <= keys@.len(),
            names == texts(keys@),
            count <= i,
            count == visible_count(db@, names.take(i as int), now),
        decreases keys@.len() - i,
    {
        assert(names.take(i + 1).drop_last() =~= names.take(i as int));
        assert(names.take(i + 1).last() == keys@[i as int]@);
        if db.exists_key(keys[i].as_str(), now) {
            count += 1;
        }
        i += 1;
    }
    assert(names.take(keys@.len() as int) =~= names);
    count
}

/// The reply to `KEYS`: the keys found, each as a bulk string.
fn keys_reply(names: &Vec<String>) -> (frame: Frame)
    ensures
        frame@ == FrameView::Array(bulks(texts(names@))),
{
    let mut items: Vec<Frame> = Vec::new();
    let mut i: usize = 0;
    while i < names.len()
        invariant
            i <= names@.len(),
            items@.len() == i,
            forall|j: int| 0 <= j < i ==> (#[trigger] items@[j])@ == FrameView::Bulk(
                encode_utf8(names@[j]@),
            ),
        decreases names@.len() - i,
    {
        items.push(bulk_of(names[i].as_str()));
        i += 1;
    }
    assert(frame_views(items@) =~= bulks(texts(names@)));
    Frame::Array(items)
}

/// Carries out a command on the keyspace at the time `now`, and returns the
/// reply.
pub fn handle_command(command: Command, db: &mut DB, now: u64) -> (reply: Frame)
    requires
        old(db).wf(),
    ensures
        final(db).wf(),
        replies(command@, old(db)@, now, reply@),
        final(db)@ == state_after(command@, old(db)@, now),
        final(db).is_stopped() == old(db).is_stopped(),
{
    match command {
        Command::Get { key } => match db.get(key.as_str(), now) {
            Some(value) => Frame::Bulk(value),
            None => Frame::Null,
        },
        Command::SetKey { key, val, expiration } => {
            db.set(key, val, expiration, now);
            Frame::Simple(String::from_str("OK"))
        },
        Command::Ping { msg } => match msg {
            Some(text) => Frame::Simple(text),
            None => Frame::Simple(String::from_str("PONG")),
        },
        Command::Increment { key } => match db.add_one(key.as_str(), now) {
            Ok(n) => Frame::Integer(n),
            Err(e) => error_frame(e.message().as_str()),
        },
        Command::FlushDB => {
            db.flush();
            Frame::Simple(String::from_str("OK"))
        },
        Command::Del { keys } => {
            let removed = remove_all(db, &keys);
            count_reply(removed)
        },
        Command::Exists { keys } => {
            let count = count_visible(db, &keys, now);
            count_reply(count)
        },
        Command::DBSize => count_reply(db.size()),
        Command::Unknown(name) => {
            let e = RedisCommandError::InvalidCommand(name);
            error_frame(e.message().as_str())
        },
        Command::Keys { pattern } => match db.keys(pattern.as_str(), now) {
            Ok(names) => {
                let frame = keys_reply(&names);
                assert(frame@ == FrameView::Array(bulks(texts(names@))));
                frame
            },
            Err(e) => error_frame(e.message().as_str()),
        },
        Command::Lolwut(args) => {
            let mut reply = Frame::Array(args);
            let _ = reply.append(
                Frame::Simple(String::from_str("https://youtu.be/dQw4w9WgXcQ?si=9GzI0HV44IG4_rPi")),
            );
            reply
        },
        Command::Expire { key, seconds } => {
            if db.expire(key.as_str(), seconds as u128 * 1000, now) {
                Frame::Integer(1)
            } else {
                Frame::Integer(0)
            }
        },
        Command::TTL { key } => match db.ttl(key.as_str(), now) {
            Ok(Some(left)) => {
                let seconds = if left % 1000 == 0 {
                    left / 1000
                } else {
                    left / 1000 + 1
                };
                if seconds > i64::MAX as u128 {
                    Frame::Integer(i64::MAX)
                } else {
                    Frame::Integer(seconds as i64)
                }
            },
            Ok(None) => Frame::Integer(-1),
            Err(_) => Frame::Integer(-2),
        },
    }
}

/// Whether `reply` is the reply that a request frame gets: that of the
/// command it asks for, or `ERR ` and the text of the error that tells why it
/// asks for none.
pub open spec fn answers(request: FrameView, space: Keyspace, now: u64, reply: FrameView) -> bool {
    match command_of(request) {
        Ok(command) => replies(command, space, now, reply),
        Err(e) => reply == error_reply(e.message()),
    }
}

/// The keyspace once a request frame was served at the time `now`.
pub open spec fn state_served(request: FrameView, space: Keyspace, now: u64) -> Keyspace {
    match command_of(request) {
        Ok(command) => state_after(command, space, now),
        Err(_) => space,
    }
}

/// Serves a request frame: reads it as a command, carries the command out at
/// the time `now`, and returns the reply. A frame that is no command is
/// replied to with the error, and changes nothing.
pub fn handle_frame(request: Frame, db: &mut DB, now: u64) -> (reply: Frame)
    requires
        old(db).wf(),
    ensures
        final(db).wf(),
        answers(request@, old(db)@, now, reply@),
        final(db)@ == state_served(request@, old(db)@, now),
        final(db).is_stopped() == old(db).is_stopped(),
{
    match Command::from_frame(request) {
        Ok(command) => handle_command(command, db, now),
        Err(e) => error_frame(e.message().as_str()),
    }
}

/// What happens on a connection that the server serves.
#[derive(Debug)]
pub enum ConnectionEvent {
    /// A request came in.
    Request(Frame),
    /// The client closed the stream.
    EndOfStream,
    /// Nothing came in, or nothing could be sent, for as long as a connection
    /// may stay idle.
    IdleTimeout,
    /// The server is shutting down.
    Shutdown,
}

/// What the server does next on a connection.
#[derive(Debug)]
pub enum ConnectionAction {
    /// Send this reply, and wait for what happens next.
    Reply(Frame),
    /// Close the connection.
    Close,
}

/// What the server does when `event` happens on a connection at the time
/// `now`: a request is served and replied to; anything else closes the
/// connection, and leaves the keyspace as it is.
pub fn handle_client_connection(event: ConnectionEvent, db: &mut DB, now: u64) -> (action:
    ConnectionAction)
    requires
        old(db).wf(),
    ensures
        final(db).wf(),
        final(db).is_stopped() == old(db).is_stopped(),
        match event {
            ConnectionEvent::Request(request) => action matches ConnectionAction::Reply(reply)
                && answers(request@, old(db)@, now, reply@) && final(db)@ == state_served(
                request@,
                old(db)@,
                now,
            ),
            _ => action is Close && final(db)@ == old(db)@,
        },
{
    match event {
        ConnectionEvent::Request(request) => ConnectionAction::Reply(handle_frame(request, db, now)),
        _ => ConnectionAction::Close,
    }
}

/// Whether a client is turned away when `active` clients are being served:
/// it is once they are as many as may be served at the same time.
pub open spec fn turned_away(active: usize) -> bool {
    active >= MAX_CLIENTS
}

/// Decides on a client that connects while `active` clients are being
/// served: `None` admits it; a frame is the error to send before the
/// connection is closed.
pub fn admission(active: usize) -> (refusal: Option<Frame>)
    ensures
        match refusal {
            Some(frame) => turned_away(active) && frame@ == FrameView::Error(
                "max number of clients reached"@,
            ),
            None => !turned_away(active),
        },
{
    if active >= MAX_CLIENTS {
        Some(Frame::Error(String::from_str("max number of clients reached")))
    } else {
        None
    }
}

/// Counts a client in for as long as the guard lives.
pub struct ClientGuard {
    client_count: Arc<AtomicUsize>,
}

impl ClientGuard {
    /// The counter that the guard counts in.
    pub closed spec fn counter(&self) -> Arc<AtomicUsize> {
        self.client_count
    }

    /// Counts one client more in `client_count`. Dropping the guard counts
    /// the client out again.
    pub fn new(client_count: Arc<AtomicUsize>) -> (guard: Self)
        ensures
            guard.counter() == client_count,
    {
        client_count.fetch_add(1, Ordering::Relaxed);
        Self { client_count }
    }
}

impl Drop for ClientGuard {
    /// `AtomicUsize::fetch_sub`, which counts the client out: it neither
    /// panics nor blocks.
    #[verifier::external_body]
    fn drop(&mut self)
        opens_invariants none
        no_unwind
    {
        self.client_count.fetch_sub(1, Ordering::Relaxed);
    }
}

} // verus!
