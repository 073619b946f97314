//! Laws of the keyspace and of the commands: what holds of every state, every
//! key and every time.

use vstd::prelude::*;
use crate::cmd::CommandView;
use crate::db::{
    after_increment, expired, increment_of, time_to_live, unexpired, visible, ItemView, Keyspace,
};
use crate::frame::FrameView;
use crate::server::{replies, reply_count, seconds_left, state_after};
use crate::text::{decimal, lemma_number_text_of_decimal};

verus! {

/// A key that was set with a time to live is read back with its value at
/// every time before the deadline, and as null at the deadline and at every
/// time after it.
pub proof fn lemma_set_then_get(
    space: Keyspace,
    key: Seq<char>,
    val: Seq<u8>,
    ttl: u128,
    set_at: u64,
    read_at: u64,
    reply: FrameView,
)
    requires
        replies(
            CommandView::Get { key },
            state_after(CommandView::SetKey { key, val, expiration: Some(ttl) }, space, set_at),
            read_at,
            reply,
        ),
    ensures
        read_at < set_at + ttl ==> reply == FrameView::Bulk(val),
        read_at >= set_at + ttl ==> reply == FrameView::Null,
{
}

/// A key that was set without a time to live is read back with its value at
/// every time, whatever deadline it had before.
pub proof fn lemma_set_clears_deadline(
    space: Keyspace,
    key: Seq<char>,
    val: Seq<u8>,
    set_at: u64,
    read_at: u64,
    reply: FrameView,
)
    requires
        replies(
            CommandView::Get { key },
            state_after(CommandView::SetKey { key, val, expiration: None }, space, set_at),
            read_at,
            reply,
        ),
    ensures
        reply == FrameView::Bulk(val),
{
}

/// Sweeping the expired keys out is not seen by any read: at the time of the
/// sweep and at every later time, each key is visible after the sweep if and
/// only if it was before, and holds what it held.
pub proof fn lemma_sweep_is_unseen(space: Keyspace, key: Seq<char>, swept_at: u64, read_at: u64)
    requires
        swept_at <= read_at,
    ensures
        visible(unexpired(space, swept_at), key, read_at) == visible(space, key, read_at),
        visible(space, key, read_at) ==> unexpired(space, swept_at)[key] == space[key],
        forall|other: Seq<char>|
            unexpired(space, swept_at).contains_key(other) ==> !expired(
                #[trigger] unexpired(space, swept_at)[other],
                swept_at,
            ),
{
}

/// `TTL` replies with `-2` if and only if the key is not visible, with `-1` if
/// and only if it is visible and has no deadline, and otherwise with a
/// positive integer: the seconds that are left, a second that has begun
/// counted in full.
pub proof fn lemma_ttl_tri_state(space: Keyspace, key: Seq<char>, now: u64, reply: FrameView)
    requires
        replies(CommandView::TTL { key }, space, now, reply),
    ensures
        reply matches FrameView::Integer(n) && (n == -2 || n == -1 || n > 0),
        reply == FrameView::Integer(-2i64) <==> !visible(space, key, now),
        reply == FrameView::Integer(-1i64) <==> visible(space, key, now) && space[key].deadline is None,
        space[key].deadline matches Some(deadline) ==> (visible(space, key, now) ==> reply
            == FrameView::Integer(reply_count(seconds_left((deadline - now) as u128)))),
{
    if visible(space, key, now) {
        if let Some(deadline) = space[key].deadline {
            assert(time_to_live(space, key, now) == Ok::<Option<u128>, ()>(
                Some((deadline - now) as u128),
            ));
            assert(seconds_left((deadline - now) as u128) >= 1);
        }
    }
}

/// After `FLUSHDB`, `TTL` replies with `-2` for every key, at every time.
pub proof fn lemma_ttl_after_flush(
    space: Keyspace,
    key: Seq<char>,
    flushed_at: u64,
    now: u64,
    reply: FrameView,
)
    requires
        replies(
            CommandView::TTL { key },
            state_after(CommandView::FlushDB, space, flushed_at),
            now,
            reply,
        ),
    ensures
        reply == FrameView::Integer(-2i64),
{
}

/// The keyspace after `key` was incremented once at each of `times`, in turn.
pub open spec fn after_increments(space: Keyspace, key: Seq<char>, times: Seq<u64>) -> Keyspace
    decreases times.len(),
{
    if times.len() == 0 {
        space
    } else {
        after_increment(after_increments(space, key, times.drop_last()), key, times.last())
    }
}

/// Increments add up: a key that was not there and is then incremented any
/// number of times, in whatever order the increments of several clients
/// arrive and at whatever times, holds that number; and the increment that
/// makes it so replies with that number.
pub proof fn lemma_increments_add_up(space: Keyspace, key: Seq<char>, times: Seq<u64>)
    requires
        !space.contains_key(key),
        0 < times.len() <= i64::MAX,
    ensures
        after_increments(space, key, times).contains_key(key),
        after_increments(space, key, times)[key] == (ItemView {
            value: decimal(times.len() as int),
            deadline: None,
        }),
        increment_of(after_increments(space, key, times.drop_last()), key, times.last()) == Ok::<
            i64,
            crate::err::KeyspaceErrorView,
        >(times.len() as i64),
    decreases times.len(),
{
    let earlier = times.drop_last();
    if earlier.len() == 0 {
        assert(after_increments(space, key, earlier) == space);
    } else {
        lemma_increments_add_up(space, key, earlier);
        lemma_number_text_of_decimal(earlier.len() as int);
    }
}

/// An increment leaves every other key as it is.
pub proof fn lemma_increment_is_local(space: Keyspace, key: Seq<char>, other: Seq<char>, now: u64)
    requires
        other != key,
    ensures
        after_increment(space, key, now).contains_key(other) == space.contains_key(other),
        space.contains_key(other) ==> after_increment(space, key, now)[other] == space[other],
{
}

} // verus!
