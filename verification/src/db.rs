//! The keyspace: keys with their values and deadlines, and the index by which
//! expired keys are found.
//!
//! Time is a count of milliseconds on a clock that never runs backwards. The
//! keyspace does not read a clock: every operation that depends on the time
//! takes the current reading as `now`.

use vstd::prelude::*;
use vstd::string::*;
use vstd::utf8::{decode_utf8, decode_utf8_encode_utf8, valid_utf8};
use crate::err::{KeyspaceErrorView, RedisKeyspaceError};
use crate::text::{
    decimal, decimal_bytes, lemma_ascii_is_utf8, lemma_number_text_is_ascii, number_text, str_eq,
    texts,
};
use crate::trusted::{
    compile_pattern, glob_accepts, glob_fault, glob_matches, integer_fault, parse_i64,
    pattern_matches, pattern_source, string_from_utf8, utf8_fault,
};

verus! {

/// What the keyspace holds under a key.
pub struct ItemView {
    /// The value.
    pub value: Seq<u8>,
    /// The time from which on the key is no longer visible, if there is one.
    pub deadline: Option<u128>,
}

/// The keyspace as a mathematical value: a finite map from keys to items.
pub type Keyspace = Map<Seq<char>, ItemView>;

/// The deadline of a key that is given `ttl` milliseconds to live at the time
/// `now`: their sum, or the largest time there is where the sum exceeds it.
pub open spec fn deadline_after(now: u64, ttl: u128) -> u128 {
    if now + ttl > u128::MAX {
        u128::MAX
    } else {
        (now + ttl) as u128
    }
}

/// Whether an item is past its deadline at the time `now`.
pub open spec fn expired(item: ItemView, now: u64) -> bool {
    item.deadline matches Some(deadline) && deadline <= now
}

/// Whether `key` is visible at the time `now`: it is there, and it has no
/// deadline or one that `now` has not reached.
pub open spec fn visible(space: Keyspace, key: Seq<char>, now: u64) -> bool {
    space.contains_key(key) && !expired(space[key], now)
}

/// The keyspace without the keys that are past their deadline at the time
/// `now`.
pub open spec fn unexpired(space: Keyspace, now: u64) -> Keyspace {
    space.restrict(Set::new(|key: Seq<char>| visible(space, key, now)))
}

/// How long `key` has to live at the time `now`, in milliseconds: `Err(())`
/// where the key is not visible, `Ok(None)` where it has no deadline.
pub open spec fn time_to_live(space: Keyspace, key: Seq<char>, now: u64) -> Result<Option<u128>, ()> {
    if !visible(space, key, now) {
        Err(())
    } else {
        match space[key].deadline {
            Some(deadline) => Ok(Some((deadline - now) as u128)),
            None => Ok(None),
        }
    }
}

/// Whether `names` are the keys that are visible at the time `now` and that
/// `pattern` matches, each once.
pub open spec fn matching_keys(
    space: Keyspace,
    pattern: Seq<char>,
    now: u64,
    names: Seq<Seq<char>>,
) -> bool {
    &&& names.no_duplicates()
    &&& forall|key: Seq<char>|
        names.contains(key) <==> visible(space, key, now) && glob_matches(pattern, key)
}

/// The integer that a value writes in decimal, where it writes one that fits
/// 64 bits.
pub open spec fn stored_integer(value: Seq<u8>) -> Option<i64> {
    match number_text(value) {
        Some(v) => if i64::MIN <= v <= i64::MAX {
            Some(v as i64)
        } else {
            None
        },
        None => None,
    }
}

/// Why a value is no integer, in the words of the decoder where the value is
/// no text, and of the parser where the text is no integer.
pub open spec fn not_integer(value: Seq<u8>) -> Seq<char> {
    if valid_utf8(value) {
        integer_fault(decode_utf8(value))
    } else {
        utf8_fault(value)
    }
}

/// What incrementing `key` at the time `now` comes to: the new number, one for
/// a key that is not there, or the reason why there is none.
pub open spec fn increment_of(space: Keyspace, key: Seq<char>, now: u64) -> Result<
    i64,
    KeyspaceErrorView,
> {
    if !space.contains_key(key) {
        Ok(1)
    } else if expired(space[key], now) {
        Err(KeyspaceErrorView::KeyExpired)
    } else {
        match stored_integer(space[key].value) {
            None => Err(KeyspaceErrorView::NotInteger(not_integer(space[key].value))),
            Some(n) => if n == i64::MAX {
                Err(KeyspaceErrorView::Overflow)
            } else {
                Ok((n + 1) as i64)
            },
        }
    }
}

/// The keyspace once `key` was incremented at the time `now`: the key holds
/// the new number and keeps its deadline; a key past its deadline is gone; a
/// key that cannot be incremented is as it was.
pub open spec fn after_increment(space: Keyspace, key: Seq<char>, now: u64) -> Keyspace {
    match increment_of(space, key, now) {
        Ok(n) => space.insert(
            key,
            ItemView {
                value: decimal(n as int),
                deadline: if space.contains_key(key) {
                    space[key].deadline
                } else {
                    None
                },
            },
        ),
        Err(KeyspaceErrorView::KeyExpired) => space.remove(key),
        Err(_) => space,
    }
}

/// An entry of the expiration index: at `deadline`, `key` may have expired.
pub struct IndexEntry {
    /// The key.
    pub key: Seq<char>,
    /// The deadline that the key had when the entry was made.
    pub deadline: u128,
}

/// Whether an index runs from the earliest deadline on.
pub open spec fn earliest_first(index: Seq<IndexEntry>) -> bool {
    forall|i: int, j: int|
        0 <= i <= j < index.len() ==> (#[trigger] index[i]).deadline <= (#[trigger] index[j]).deadline
}

/// Whether an index holds an entry for every deadline that a key of `space`
/// has. It may hold more: entries for keys that are gone, or that have
/// another deadline or none by now.
pub open spec fn indexes(index: Seq<IndexEntry>, space: Keyspace) -> bool {
    forall|key: Seq<char>|
        space.contains_key(key) && (#[trigger] space[key]).deadline is Some ==> index.contains(
            IndexEntry { key, deadline: space[key].deadline->0 },
        )
}

/// Whether `after` is `before` with `entry` put in at some place.
pub open spec fn gains(before: Seq<IndexEntry>, after: Seq<IndexEntry>, entry: IndexEntry) -> bool {
    exists|at: int| 0 <= at <= before.len() && after == #[trigger] before.insert(at, entry)
}

/// A key with its value and deadline.
struct DBItem {
    key: String,
    value: Vec<u8>,
    expiration: Option<u128>,
}

/// An entry of the expiration index: at `expiration_time`, `key` may have
/// expired.
struct ExpirationEntry {
    key: String,
    expiration_time: u128,
}

/// The keyspace: each key with its value and, where it has one, its deadline.
///
/// Beside the keys it keeps an index of deadlines, earliest first, that holds
/// an entry for every deadline a key has. The index may also hold entries
/// that no longer apply, for keys that have since been removed or given
/// another deadline; such an entry is told by comparing it with the key.
pub struct DB {
    data: Vec<DBItem>,
    expiration_queue: Vec<ExpirationEntry>,
    stopped: bool,
}

spec fn entry_of(entry: ExpirationEntry) -> IndexEntry {
    IndexEntry { key: entry.key@, deadline: entry.expiration_time }
}

spec fn index_of_queue(queue: Seq<ExpirationEntry>) -> Seq<IndexEntry> {
    Seq::new(queue.len(), |i: int| entry_of(queue[i]))
}

spec fn item_of(entry: DBItem) -> ItemView {
    ItemView { value: entry.value@, deadline: entry.expiration }
}

spec fn has_key(data: Seq<DBItem>, key: Seq<char>) -> bool {
    exists|i: int| 0 <= i < data.len() && (#[trigger] data[i]).key@ == key
}

spec fn index_of(data: Seq<DBItem>, key: Seq<char>) -> int {
    choose|i: int| 0 <= i < data.len() && (#[trigger] data[i]).key@ == key
}

spec fn model(data: Seq<DBItem>) -> Keyspace {
    Map::new(|key: Seq<char>| has_key(data, key), |key: Seq<char>| item_of(data[index_of(data, key)]))
}

spec fn distinct(data: Seq<DBItem>) -> bool {
    forall|i: int, j: int| 0 <= i < j < data.len() ==> (#[trigger] data[i]).key@ != (#[trigger] data[j]).key@
}

spec fn sorted(queue: Seq<ExpirationEntry>) -> bool {
    forall|i: int, j: int|
        0 <= i <= j < queue.len() ==> (#[trigger] queue[i]).expiration_time <= (#[trigger] queue[j]).expiration_time
}

spec fn indexed(queue: Seq<ExpirationEntry>, key: Seq<char>, time: u128) -> bool {
    exists|j: int| 0 <= j < queue.len() && (#[trigger] queue[j]).key@ == key && queue[j].expiration_time == time
}

spec fn covered(data: Seq<DBItem>, queue: Seq<ExpirationEntry>) -> bool {
    forall|i: int|
        0 <= i < data.len() && (#[trigger] data[i]).expiration is Some ==> indexed(
            queue,
            data[i].key@,
            data[i].expiration->0,
        )
}

/// Whether the entry of the index at `j` is for `key` and for the deadline
/// that `item` has.
spec fn points_at(queue: Seq<ExpirationEntry>, j: int, key: Seq<char>, item: ItemView) -> bool {
    &&& 0 <= j < queue.len()
    &&& queue[j].key@ == key
    &&& Some(queue[j].expiration_time) == item.deadline
}

/// Whether one of the entries of the index from `from` up to `upto` is for
/// `key` and for the deadline that `item` has.
spec fn awaits(
    queue: Seq<ExpirationEntry>,
    from: int,
    upto: int,
    key: Seq<char>,
    item: ItemView,
) -> bool {
    exists|j: int| from <= j < upto && #[trigger] points_at(queue, j, key, item)
}

/// Which of those entries is.
spec fn awaited_at(
    queue: Seq<ExpirationEntry>,
    from: int,
    upto: int,
    key: Seq<char>,
    item: ItemView,
) -> int {
    choose|j: int| from <= j < upto && #[trigger] points_at(queue, j, key, item)
}

/// Whether the entry at `j` holds `key`, and is one that `pattern` picks at
/// the time `now`: not past its deadline, and matched.
spec fn takes(data: Seq<DBItem>, j: int, pattern: Seq<char>, now: u64, key: Seq<char>) -> bool {
    &&& data[j].key@ == key
    &&& !expired(item_of(data[j]), now)
    &&& glob_matches(pattern, key)
}

/// Whether one of the first `upto` entries holds `key` and is picked.
spec fn picked(data: Seq<DBItem>, upto: int, pattern: Seq<char>, now: u64, key: Seq<char>) -> bool {
    exists|j: int| 0 <= j < upto && #[trigger] takes(data, j, pattern, now, key)
}

/// Where among the first `upto` entries `key` is picked.
spec fn picked_at(data: Seq<DBItem>, upto: int, pattern: Seq<char>, now: u64, key: Seq<char>) -> int {
    choose|j: int| 0 <= j < upto && #[trigger] takes(data, j, pattern, now, key)
}

proof fn lemma_model_at(data: Seq<DBItem>, i: int)
    requires
        distinct(data),
        0 <= i < data.len(),
    ensures
        model(data).contains_key(data[i].key@),
        model(data)[data[i].key@] == item_of(data[i]),
{
    let key = data[i].key@;
    assert(has_key(data, key));
    let j = index_of(data, key);
    assert(0 <= j < data.len() && data[j].key@ == key);
    if j != i {
        if j < i {
            assert(data[j].key@ != data[i].key@);
        } else {
            assert(data[i].key@ != data[j].key@);
        }
    }
}

proof fn lemma_model_push(data: Seq<DBItem>, entry: DBItem)
    requires
        distinct(data),
        !has_key(data, entry.key@),
    ensures
        distinct(data.push(entry)),
        model(data.push(entry)) == model(data).insert(entry.key@, item_of(entry)),
{
    let after = data.push(entry);
    assert forall|i: int, j: int| 0 <= i < j < after.len() implies (#[trigger] after[i]).key@ != (
    #[trigger] after[j]).key@ by {
        if j < data.len() {
            assert(data[i].key@ != data[j].key@);
        } else {
            assert(data[i].key@ != entry.key@);
        }
    }
    let expected = model(data).insert(entry.key@, item_of(entry));
    assert forall|key: Seq<char>| model(after).contains_key(key) <==> expected.contains_key(key) by {
        if has_key(after, key) {
            let i = index_of(after, key);
            if i < data.len() {
                assert(data[i].key@ == key);
            }
        }
        if has_key(data, key) {
            let i = index_of(data, key);
            assert(after[i].key@ == key);
        }
        if key == entry.key@ {
            assert(after[data.len() as int].key@ == key);
        }
    }
    assert forall|key: Seq<char>| model(after).contains_key(key) implies model(after)[key]
        == expected[key] by {
        let i = index_of(after, key);
        lemma_model_at(after, i);
        if i < data.len() {
            assert(after[i] == data[i]);
            lemma_model_at(data, i);
        }
    }
    assert(model(after) =~= expected);
}

proof fn lemma_model_update(data: Seq<DBItem>, i: int, entry: DBItem)
    requires
        distinct(data),
        0 <= i < data.len(),
        entry.key@ == data[i].key@,
    ensures
        distinct(data.update(i, entry)),
        model(data.update(i, entry)) == model(data).insert(entry.key@, item_of(entry)),
{
    let after = data.update(i, entry);
    assert forall|a: int, b: int| 0 <= a < b < after.len() implies (#[trigger] after[a]).key@ != (
    #[trigger] after[b]).key@ by {
        assert(data[a].key@ != data[b].key@);
    }
    let expected = model(data).insert(entry.key@, item_of(entry));
    assert forall|key: Seq<char>| model(after).contains_key(key) <==> expected.contains_key(key) by {
        if has_key(after, key) {
            let j = index_of(after, key);
            assert(data[j].key@ == key);
        }
        if has_key(data, key) {
            let j = index_of(data, key);
            assert(after[j].key@ == key);
        }
        if key == entry.key@ {
            assert(after[i].key@ == key);
        }
    }
    assert forall|key: Seq<char>| model(after).contains_key(key) implies model(after)[key]
        == expected[key] by {
        let j = index_of(after, key);
        lemma_model_at(after, j);
        if j != i {
            assert(after[j] == data[j]);
            lemma_model_at(data, j);
            if j < i {
                assert(data[j].key@ != data[i].key@);
            } else {
                assert(data[i].key@ != data[j].key@);
            }
        }
    }
    assert(model(after) =~= expected);
}

proof fn lemma_model_remove(data: Seq<DBItem>, i: int)
    requires
        distinct(data),
        0 <= i < data.len(),
    ensures
        distinct(data.remove(i)),
        model(data.remove(i)) == model(data).remove(data[i].key@),
{
    let after = data.remove(i);
    let gone = data[i].key@;
    assert forall|a: int, b: int| 0 <= a < b < after.len() implies (#[trigger] after[a]).key@ != (
    #[trigger] after[b]).key@ by {
        let x = if a < i { a } else { a + 1 };
        let y = if b < i { b } else { b + 1 };
        assert(after[a] == data[x]);
        assert(after[b] == data[y]);
        assert(data[x].key@ != data[y].key@);
    }
    let expected = model(data).remove(gone);
    assert forall|key: Seq<char>| model(after).contains_key(key) <==> expected.contains_key(key) by {
        if has_key(after, key) {
            let j = index_of(after, key);
            let x = if j < i { j } else { j + 1 };
            assert(after[j] == data[x]);
            assert(data[x].key@ == key);
            if x < i {
                assert(data[x].key@ != data[i].key@);
            } else {
                assert(data[i].key@ != data[x].key@);
            }
        }
        if has_key(data, key) && key != gone {
            let j = index_of(data, key);
            let x = if j < i { j } else { j - 1 };
            assert(after[x] == data[j]);
            assert(after[x].key@ == key);
        }
    }
    assert forall|key: Seq<char>| model(after).contains_key(key) implies model(after)[key]
        == expected[key] by {
        let j = index_of(after, key);
        lemma_model_at(after, j);
        let x = if j < i { j } else { j + 1 };
        assert(after[j] == data[x]);
        lemma_model_at(data, x);
    }
    assert(model(after) =~= expected);
}

proof fn lemma_covered_remove(data: Seq<DBItem>, queue: Seq<ExpirationEntry>, i: int)
    requires
        covered(data, queue),
        0 <= i < data.len(),
    ensures
        covered(data.remove(i), queue),
{
    let after = data.remove(i);
    assert forall|a: int| 0 <= a < after.len() && (#[trigger] after[a]).expiration is Some implies indexed(
        queue,
        after[a].key@,
        after[a].expiration->0,
    ) by {
        let x = if a < i { a } else { a + 1 };
        assert(after[a] == data[x]);
    }
}

proof fn lemma_model_absent(data: Seq<DBItem>, key: Seq<char>)
    ensures
        model(data).contains_key(key) <==> has_key(data, key),
{
}

/// Puts `entry` into the index, behind the entries that are due no later.
fn index_insert(queue: &mut Vec<ExpirationEntry>, entry: ExpirationEntry)
    requires
        sorted(old(queue)@),
    ensures
        sorted(final(queue)@),
        gains(index_of_queue(old(queue)@), index_of_queue(final(queue)@), entry_of(entry)),
        indexed(final(queue)@, entry.key@, entry.expiration_time),
        forall|key: Seq<char>, time: u128|
            indexed(old(queue)@, key, time) ==> indexed(final(queue)@, key, time),
{
    let mut at: usize = 0;
    while at < queue.len() && queue[at].expiration_time <= entry.expiration_time
        invariant
            at <= queue@.len(),
            forall|j: int| 0 <= j < at ==> (#[trigger] queue@[j]).expiration_time <= entry.expiration_time,
        decreases queue@.len() - at,
    {
        at += 1;
    }
    let ghost before = queue@;
    queue.insert(at, entry);
    proof {
        let after = queue@;
        assert(after[at as int] == entry);
        assert(index_of_queue(after) =~= index_of_queue(before).insert(at as int, entry_of(entry)));
        assert forall|i: int, j: int| 0 <= i <= j < after.len() implies (#[trigger] after[i]).expiration_time
            <= (#[trigger] after[j]).expiration_time by {
            let x = if i < at { i } else { i - 1 };
            let y = if j < at { j } else { j - 1 };
            if i != at {
                assert(after[i] == before[x]);
            }
            if j != at {
                assert(after[j] == before[y]);
            }
            if i != at && j != at {
                assert(before[x].expiration_time <= before[y].expiration_time);
            } else if i == at && j != at {
                assert(before[at as int].expiration_time <= before[y].expiration_time);
            }
        }
        assert forall|key: Seq<char>, time: u128| indexed(before, key, time) implies indexed(
            after,
            key,
            time,
        ) by {
            let j = choose|j: int|
                0 <= j < before.len() && (#[trigger] before[j]).key@ == key && before[j].expiration_time
                    == time;
            let y = if j < at { j } else { j + 1 };
            assert(after[y] == before[j]);
        }
    }
}

impl View for DB {
    type V = Keyspace;

    closed spec fn view(&self) -> Keyspace {
        model(self.data@)
    }
}

impl DB {
    /// Whether the keyspace is in order: no key stands twice, and the
    /// expiration index runs from the earliest deadline on and holds an entry
    /// for every deadline that a key has. Every keyspace that `new` made and
    /// that the operations below have worked on is in order.
    pub closed spec fn wf(&self) -> bool {
        &&& distinct(self.data@)
        &&& model(self.data@).dom().finite()
        &&& model(self.data@).dom().len() == self.data@.len()
        &&& sorted(self.expiration_queue@)
        &&& covered(self.data@, self.expiration_queue@)
    }

    /// The expiration index: its entries, in the order they stand in.
    pub closed spec fn index(&self) -> Seq<IndexEntry> {
        index_of_queue(self.expiration_queue@)
    }

    /// The index of a keyspace in order runs from the earliest deadline on,
    /// and holds an entry for every deadline that a key has.
    pub proof fn lemma_index(&self)
        requires
            self.wf(),
        ensures
            earliest_first(self.index()),
            indexes(self.index(), self@),
    {
        let queue = self.expiration_queue@;
        let index = self.index();
        assert forall|i: int, j: int| 0 <= i <= j < index.len() implies (#[trigger] index[i]).deadline
            <= (#[trigger] index[j]).deadline by {
            assert(queue[i].expiration_time <= queue[j].expiration_time);
        }
        assert forall|key: Seq<char>|
            self@.contains_key(key) && (#[trigger] self@[key]).deadline is Some implies index.contains(
            IndexEntry { key, deadline: self@[key].deadline->0 },
        ) by {
            let at = index_of(self.data@, key);
            lemma_model_at(self.data@, at);
            let time = self.data@[at].expiration->0;
            assert(indexed(queue, key, time));
            let j = choose|j: int|
                0 <= j < queue.len() && (#[trigger] queue[j]).key@ == key
                    && queue[j].expiration_time == time;
            assert(index[j] == IndexEntry { key, deadline: time });
        }
    }

    /// A keyspace in order holds finitely many keys.
    pub proof fn lemma_finite(&self)
        requires
            self.wf(),
        ensures
            self@.dom().finite(),
            self@.dom().len() <= usize::MAX,
    {
        assert(self.data.len() == self.data@.len());
    }

    /// Whether the keyspace was told to stop its sweeps.
    pub closed spec fn is_stopped(&self) -> bool {
        self.stopped
    }

    /// An empty keyspace.
    pub fn new() -> (db: Self)
        ensures
            db.wf(),
            db@ == Keyspace::empty(),
            db.index() == Seq::<IndexEntry>::empty(),
            !db.is_stopped(),
    {
        let data: Vec<DBItem> = Vec::new();
        let queue: Vec<ExpirationEntry> = Vec::new();
        assert(model(data@) =~= Keyspace::empty());
        assert(index_of_queue(queue@) =~= Seq::<IndexEntry>::empty());
        DB { data, expiration_queue: queue, stopped: false }
    }

    /// Where `key` stands among the entries, if it is there.
    fn find(&self, key: &str) -> (r: Option<usize>)
        ensures
            match r {
                Some(i) => i < self.data@.len() && self.data@[i as int].key@ == key@,
                None => !has_key(self.data@, key@),
            },
    {
        let mut i: usize = 0;
        while i < self.data.len()
            invariant
                i <= self.data@.len(),
                forall|j: int| 0 <= j < i ==> (#[trigger] self.data@[j]).key@ != key@,
            decreases self.data@.len() - i,
        {
            if str_eq(self.data[i].key.as_str(), key) {
                return Some(i);
            }
            i += 1;
        }
        None
    }

    /// Stores `value` under `key`, in place of what the key held. With a
    /// `duration`, in milliseconds, the key gets the deadline that lies that
    /// far from `now`; without one it gets none, and loses the one it had.
    pub fn set(&mut self, key: String, value: Vec<u8>, duration: Option<u128>, now: u64)
        requires
            old(self).wf(),
        ensures
            final(self).wf(),
            final(self)@ == old(self)@.insert(
                key@,
                ItemView {
                    value: value@,
                    deadline: match duration {
                        Some(ttl) => Some(deadline_after(now, ttl)),
                        None => None,
                    },
                },
            ),
            match duration {
                Some(ttl) => gains(
                    old(self).index(),
                    final(self).index(),
                    IndexEntry { key: key@, deadline: deadline_after(now, ttl) },
                ),
                None => final(self).index() == old(self).index(),
            },
            final(self).is_stopped() == old(self).is_stopped(),
    {
        let expiration = match duration {
            Some(ttl) => Some((now as u128).saturating_add(ttl)),
            None => None,
        };
        if let Some(time) = expiration {
            let entry = ExpirationEntry { key: key.clone(), expiration_time: time };
            index_insert(&mut self.expiration_queue, entry);
        }
        let found = self.find(key.as_str());
        let item = DBItem { key, value, expiration };
        proof {
            lemma_model_absent(self.data@, item.key@);
        }
        match found {
            Some(i) => {
                proof {
                    lemma_model_at(self.data@, i as int);
                    lemma_model_update(self.data@, i as int, item);
                    assert(model(self.data@).dom().insert(item.key@) =~= model(self.data@).dom());
                }
                self.data[i] = item;
            },
            None => {
                proof {
                    lemma_model_push(self.data@, item);
                }
                self.data.push(item);
            },
        }
    }

    /// The value of `key`, where the key is visible at the time `now`.
    pub fn get(&self, key: &str, now: u64) -> (r: Option<Vec<u8>>)
        requires
            self.wf(),
        ensures
            match r {
                Some(value) => visible(self@, key@, now) && value@ == self@[key@].value,
                None => !visible(self@, key@, now),
            },
    {
        proof {
            lemma_model_absent(self.data@, key@);
        }
        match self.find(key) {
            Some(i) => {
                proof {
                    lemma_model_at(self.data@, i as int);
                }
                let entry = &self.data[i];
                let live = match entry.expiration {
                    Some(deadline) => (now as u128) < deadline,
                    None => true,
                };
                if live {
                    Some(entry.value.clone())
                } else {
                    None
                }
            },
            None => None,
        }
    }

    /// Gives `key` the deadline that lies `duration` milliseconds from `now`,
    /// if the key is there, and tells whether it was.
    pub fn expire(&mut self, key: &str, duration: u128, now: u64) -> (found: bool)
        requires
            old(self).wf(),
        ensures
            final(self).wf(),
            found == old(self)@.contains_key(key@),
            final(self)@ == if found {
                old(self)@.insert(
                    key@,
                    ItemView {
                        value: old(self)@[key@].value,
                        deadline: Some(deadline_after(now, duration)),
                    },
                )
            } else {
                old(self)@
            },
            if found {
                gains(
                    old(self).index(),
                    final(self).index(),
                    IndexEntry { key: key@, deadline: deadline_after(now, duration) },
                )
            } else {
                final(self).index() == old(self).index()
            },
            final(self).is_stopped() == old(self).is_stopped(),
    {
        proof {
            lemma_model_absent(self.data@, key@);
        }
        match self.find(key) {
            Some(i) => {
                let time = (now as u128).saturating_add(duration);
                let entry = ExpirationEntry { key: self.data[i].key.clone(), expiration_time: time };
                index_insert(&mut self.expiration_queue, entry);
                let ghost item = DBItem {
                    key: self.data@[i as int].key,
                    value: self.data@[i as int].value,
                    expiration: Some(time),
                };
                proof {
                    lemma_model_at(self.data@, i as int);
                    lemma_model_update(self.data@, i as int, item);
                    assert(model(self.data@).dom().insert(item.key@) =~= model(self.data@).dom());
                }
                self.data[i].expiration = Some(time);
                assert(self.data@ =~= old(self).data@.update(i as int, item));
                true
            },
            None => false,
        }
    }

    /// Whether `key` is visible at the time `now`.
    pub fn exists_key(&self, key: &str, now: u64) -> (found: bool)
        requires
            self.wf(),
        ensures
            found == visible(self@, key@, now),
    {
        self.get(key, now).is_some()
    }

    /// Removes `key`, expired or not, and returns the value it held.
    pub fn remove(&mut self, key: &str) -> (r: Option<Vec<u8>>)
        requires
            old(self).wf(),
        ensures
            final(self).wf(),
            match r {
                Some(value) => old(self)@.contains_key(key@) && value@ == old(self)@[key@].value,
                None => !old(self)@.contains_key(key@),
            },
            final(self)@ == old(self)@.remove(key@),
            final(self).index() == old(self).index(),
            final(self).is_stopped() == old(self).is_stopped(),
    {
        proof {
            lemma_model_absent(self.data@, key@);
        }
        match self.find(key) {
            Some(i) => {
                proof {
                    lemma_model_at(self.data@, i as int);
                    lemma_model_remove(self.data@, i as int);
                    lemma_covered_remove(self.data@, self.expiration_queue@, i as int);
                }
                let item = self.data.remove(i);
                Some(item.value)
            },
            None => {
                assert(old(self)@.remove(key@) =~= old(self)@);
                None
            },
        }
    }

    /// The number of keys, those past their deadline included.
    pub fn size(&self) -> (count: usize)
        requires
            self.wf(),
        ensures
            self@.dom().finite(),
            count == self@.dom().len(),
    {
        self.data.len()
    }

    /// Removes every key, and every entry of the expiration index.
    pub fn flush(&mut self)
        requires
            old(self).wf(),
        ensures
            final(self).wf(),
            final(self)@ == Keyspace::empty(),
            final(self).index() == Seq::<IndexEntry>::empty(),
            final(self).is_stopped() == old(self).is_stopped(),
    {
        proof {
            assert(model(Seq::<DBItem>::empty()) =~= Keyspace::empty());
        }
        self.data.clear();
        self.expiration_queue.clear();
        assert(index_of_queue(self.expiration_queue@) =~= Seq::<IndexEntry>::empty());
    }

    /// How long `key` has to live at the time `now`, in milliseconds:
    /// `Err(())` where the key is not visible, `Ok(None)` where it has no
    /// deadline.
    pub fn ttl(&self, key: &str, now: u64) -> (r: Result<Option<u128>, ()>)
        requires
            self.wf(),
        ensures
            r == time_to_live(self@, key@, now),
    {
        proof {
            lemma_model_absent(self.data@, key@);
        }
        match self.find(key) {
            Some(i) => {
                proof {
                    lemma_model_at(self.data@, i as int);
                }
                match self.data[i].expiration {
                    Some(deadline) => {
                        if (now as u128) < deadline {
                            Ok(Some(deadline - now as u128))
                        } else {
                            Err(())
                        }
                    },
                    None => Ok(None),
                }
            },
            None => Err(()),
        }
    }

    /// Adds one to the integer that `key` holds, and returns the new integer.
    /// A key that is not there counts as zero. A key past its deadline is
    /// removed, and the increment fails with `KeyExpired`; it fails with
    /// `NotInteger` where the value is no decimal integer of 64 bits, and
    /// with `Overflow` where no larger one exists.
    pub fn add_one(&mut self, key: &str, now: u64) -> (r: Result<i64, RedisKeyspaceError>)
        requires
            old(self).wf(),
        ensures
            final(self).wf(),
            match (r, increment_of(old(self)@, key@, now)) {
                (Ok(n), Ok(m)) => n == m,
                (Err(e), Err(x)) => e@ == x,
                _ => false,
            },
            final(self)@ == after_increment(old(self)@, key@, now),
            final(self).index() == old(self).index(),
            final(self).is_stopped() == old(self).is_stopped(),
    {
        proof {
            lemma_model_absent(self.data@, key@);
        }
        match self.find(key) {
            None => {
                let item = DBItem { key: String::from_str(key), value: decimal_bytes(1), expiration: None };
                proof {
                    lemma_model_push(self.data@, item);
                }
                self.data.push(item);
                Ok(1)
            },
            Some(i) => {
                proof {
                    lemma_model_at(self.data@, i as int);
                }
                let past = match self.data[i].expiration {
                    Some(deadline) => deadline <= now as u128,
                    None => false,
                };
                if past {
                    proof {
                        lemma_model_remove(self.data@, i as int);
                        lemma_covered_remove(self.data@, self.expiration_queue@, i as int);
                    }
                    self.data.remove(i);
                    return Err(RedisKeyspaceError::KeyExpired);
                }
                let ghost bytes = self.data@[i as int].value@;
                proof {
                    if number_text(bytes) is Some {
                        lemma_number_text_is_ascii(bytes);
                        lemma_ascii_is_utf8(bytes);
                    }
                    if valid_utf8(bytes) {
                        decode_utf8_encode_utf8(bytes);
                    }
                }
                let text = match string_from_utf8(self.data[i].value.clone()) {
                    Ok(text) => text,
                    Err(message) => {
                        return Err(RedisKeyspaceError::NotInteger(message));
                    },
                };
                let current = match parse_i64(text.as_str()) {
                    Ok(n) => n,
                    Err(message) => {
                        return Err(RedisKeyspaceError::NotInteger(message));
                    },
                };
                let next = match current.checked_add(1) {
                    Some(n) => n,
                    None => {
                        return Err(RedisKeyspaceError::Overflow);
                    },
                };
                let value = decimal_bytes(next);
                let ghost item = DBItem {
                    key: self.data@[i as int].key,
                    value,
                    expiration: self.data@[i as int].expiration,
                };
                proof {
                    lemma_model_update(self.data@, i as int, item);
                    assert(model(self.data@).dom().insert(item.key@) =~= model(self.data@).dom());
                }
                self.data[i].value = value;
                assert(self.data@ =~= old(self).data@.update(i as int, item));
                Ok(next)
            },
        }
    }

    /// Adds one to the integer that `key` holds, as `add_one` does, and
    /// returns the new integer in decimal.
    pub fn increment(&mut self, key: &str, now: u64) -> (r: Result<Vec<u8>, RedisKeyspaceError>)
        requires
            old(self).wf(),
        ensures
            final(self).wf(),
            match (r, increment_of(old(self)@, key@, now)) {
                (Ok(value), Ok(m)) => value@ == decimal(m as int),
                (Err(e), Err(x)) => e@ == x,
                _ => false,
            },
            final(self)@ == after_increment(old(self)@, key@, now),
            final(self).index() == old(self).index(),
            final(self).is_stopped() == old(self).is_stopped(),
    {
        match self.add_one(key, now) {
            Ok(n) => Ok(decimal_bytes(n)),
            Err(e) => Err(e),
        }
    }

    /// The keys that are visible at the time `now` and that `pattern`
    /// matches, each once, in no stated order; `BadPattern`, with the matcher's
    /// account of the fault, where the pattern is none.
    pub fn keys(&self, pattern: &str, now: u64) -> (r: Result<Vec<String>, RedisKeyspaceError>)
        requires
            self.wf(),
        ensures
            match r {
                Ok(list) => glob_accepts(pattern@) && matching_keys(
                    self@,
                    pattern@,
                    now,
                    texts(list@),
                ),
                Err(e) => glob_fault(pattern@) matches Some(message) && e@
                    == KeyspaceErrorView::BadPattern(message),
            },
    {
        let compiled = match compile_pattern(pattern) {
            Ok(compiled) => compiled,
            Err(message) => {
                return Err(RedisKeyspaceError::BadPattern(message));
            },
        };
        let mut list: Vec<String> = Vec::new();
        let mut i: usize = 0;
        while i < self.data.len()
            invariant
                self.wf(),
                glob_accepts(pattern@),
                pattern_source(compiled) == pattern@,
                i <= self.data@.len(),
                texts(list@).no_duplicates(),
                forall|key: Seq<char>|
                    texts(list@).contains(key) <==> picked(self.data@, i as int, pattern@, now, key),
            decreases self.data@.len() - i,
        {
            let entry = &self.data[i];
            let live = match entry.expiration {
                Some(deadline) => (now as u128) < deadline,
                None => true,
            };
            let ghost before = texts(list@);
            if live && pattern_matches(&compiled, entry.key.as_str()) {
                list.push(entry.key.clone());
            }
            proof {
                let after = texts(list@);
                let name = entry.key@;
                let taken = live && glob_matches(pattern@, name);
                if taken {
                    assert(after =~= before.push(name));
                    if before.contains(name) {
                        let j = picked_at(self.data@, i as int, pattern@, now, name);
                        assert(self.data@[j].key@ != self.data@[i as int].key@);
                    }
                } else {
                    assert(after == before);
                }
                assert forall|key: Seq<char>| after.contains(key) <==> picked(
                    self.data@,
                    i + 1,
                    pattern@,
                    now,
                    key,
                ) by {
                    if after.contains(key) {
                        let at = choose|at: int| 0 <= at < after.len() && after[at] == key;
                        if at < before.len() {
                            assert(before[at] == key);
                            assert(before.contains(key));
                            let j = picked_at(self.data@, i as int, pattern@, now, key);
                            assert(takes(self.data@, j, pattern@, now, key));
                        } else {
                            assert(takes(self.data@, i as int, pattern@, now, key));
                        }
                    }
                    if picked(self.data@, i + 1, pattern@, now, key) {
                        let j = picked_at(self.data@, i + 1, pattern@, now, key);
                        if j < i {
                            assert(takes(self.data@, j, pattern@, now, key));
                            assert(before.contains(key));
                            let at = choose|at: int| 0 <= at < before.len() && before[at] == key;
                            assert(after[at] == key);
                        } else {
                            assert(after[before.len() as int] == key);
                        }
                    }
                }
                assert forall|a: int, b: int|
                    0 <= a < after.len() && 0 <= b < after.len() && a != b implies after[a]
                    != after[b] by {
                    if a < before.len() && b < before.len() {
                        assert(before[a] != before[b]);
                    } else if a < before.len() {
                        assert(before.contains(before[a]));
                    } else if b < before.len() {
                        assert(before.contains(before[b]));
                    }
                }
            }
            i += 1;
        }
        proof {
            assert forall|key: Seq<char>| texts(list@).contains(key) <==> visible(self@, key, now)
                && glob_matches(pattern@, key) by {
                lemma_model_absent(self.data@, key);
                if texts(list@).contains(key) {
                    let j = picked_at(self.data@, i as int, pattern@, now, key);
                    lemma_model_at(self.data@, j);
                }
                if visible(self@, key, now) && glob_matches(pattern@, key) {
                    let j = index_of(self.data@, key);
                    lemma_model_at(self.data@, j);
                    assert(takes(self.data@, j, pattern@, now, key));
                }
            }
        }
        Ok(list)
    }

    /// Removes the keys that are past their deadline at the time `now`, and
    /// returns how many they were. The keys are found through the expiration
    /// index, whose entries that are due are taken off it.
    pub fn remove_expired(&mut self, now: u64) -> (removed: usize)
        requires
            old(self).wf(),
        ensures
            final(self).wf(),
            final(self)@ == unexpired(old(self)@, now),
            removed == old(self)@.dom().len() - final(self)@.dom().len(),
            final(self).index() == old(self).index().skip(
                old(self).index().len() - final(self).index().len(),
            ),
            forall|i: int|
                0 <= i < final(self).index().len() ==> (#[trigger] final(self).index()[i]).deadline
                    > now,
            forall|i: int|
                0 <= i < old(self).index().len() - final(self).index().len() ==> (
                #[trigger] old(self).index()[i]).deadline <= now,
            final(self).is_stopped() == old(self).is_stopped(),
    {
        // The entries of the index that are due are its first `due` entries.
        let mut due: usize = 0;
        while due < self.expiration_queue.len() && self.expiration_queue[due].expiration_time
            <= now as u128
            invariant
                due <= self.expiration_queue@.len(),
                forall|j: int|
                    0 <= j < due ==> (#[trigger] self.expiration_queue@[j]).expiration_time <= now,
            decreases self.expiration_queue@.len() - due,
        {
            due += 1;
        }
        let ghost queue = self.expiration_queue@;
        let ghost start = model(self.data@);
        proof {
            assert(self.data.len() == self.data@.len());
            assert forall|j: int| due <= j < queue.len() implies (#[trigger] queue[j]).expiration_time
                > now by {
                assert(queue[due as int].expiration_time <= queue[j].expiration_time);
            }
            assert forall|key: Seq<char>| start.contains_key(key) && expired(start[key], now) implies awaits(
                queue,
                0,
                due as int,
                key,
                start[key],
            ) by {
                let at = index_of(self.data@, key);
                lemma_model_at(self.data@, at);
                let time = self.data@[at].expiration->0;
                assert(indexed(queue, key, time));
                let j = choose|j: int|
                    0 <= j < queue.len() && (#[trigger] queue[j]).key@ == key
                        && queue[j].expiration_time == time;
                assert(points_at(queue, j, key, start[key]));
            }
        }
        // Each of them removes its key, unless the key is gone or has another
        // deadline by now.
        let mut removed: usize = 0;
        let mut i: usize = 0;
        while i < due
            invariant
                i <= due <= queue.len(),
                self.expiration_queue@ == queue,
                self.stopped == old(self).stopped,
                distinct(self.data@),
                covered(self.data@, queue),
                start.dom().finite(),
                start.dom().len() <= usize::MAX,
                model(self.data@).dom().finite(),
                model(self.data@).dom().len() == self.data@.len(),
                removed + self.data@.len() == start.dom().len(),
                forall|j: int| 0 <= j < due ==> (#[trigger] queue[j]).expiration_time <= now,
                forall|key: Seq<char>| #[trigger]
                    model(self.data@).contains_key(key) ==> start.contains_key(key) && model(
                        self.data@,
                    )[key] == start[key],
                forall|key: Seq<char>|
                    start.contains_key(key) && !expired(start[key], now) ==> #[trigger] model(
                        self.data@,
                    ).contains_key(key),
                forall|key: Seq<char>| #[trigger]
                    model(self.data@).contains_key(key) && expired(model(self.data@)[key], now)
                        ==> awaits(queue, i as int, due as int, key, model(self.data@)[key]),
            decreases due - i,
        {
            let ghost before = self.data@;
            let ghost current = model(self.data@);
            let found = self.find(self.expiration_queue[i].key.as_str());
            let at = match found {
                Some(at) => {
                    let same = match self.data[at].expiration {
                        Some(deadline) => deadline == self.expiration_queue[i].expiration_time,
                        None => false,
                    };
                    if same {
                        Some(at)
                    } else {
                        None
                    }
                },
                None => None,
            };
            match at {
                Some(at) => {
                    proof {
                        lemma_model_at(before, at as int);
                        lemma_model_remove(before, at as int);
                        lemma_covered_remove(before, queue, at as int);
                    }
                    self.data.remove(at);
                    removed += 1;
                    proof {
                        assert forall|key: Seq<char>| #[trigger]
                            model(self.data@).contains_key(key) && expired(
                                model(self.data@)[key],
                                now,
                            ) implies awaits(
                            queue,
                            i + 1,
                            due as int,
                            key,
                            model(self.data@)[key],
                        ) by {
                            let j = awaited_at(queue, i as int, due as int, key, current[key]);
                            assert(points_at(queue, j, key, current[key]));
                        }
                    }
                },
                None => {
                    proof {
                        assert forall|key: Seq<char>| #[trigger]
                            current.contains_key(key) && expired(current[key], now) implies awaits(
                            queue,
                            i + 1,
                            due as int,
                            key,
                            current[key],
                        ) by {
                            let j = awaited_at(queue, i as int, due as int, key, current[key]);
                            assert(points_at(queue, j, key, current[key]));
                            if j == i {
                                lemma_model_absent(before, key);
                                lemma_model_at(before, found->0 as int);
                            }
                        }
                    }
                },
            }
            i += 1;
        }
        // The entries that were due leave the index.
        let rest = self.expiration_queue.split_off(due);
        self.expiration_queue = rest;
        proof {
            let kept = self.expiration_queue@;
            assert(index_of_queue(kept) =~= index_of_queue(queue).skip(due as int));
            assert forall|i: int| 0 <= i < kept.len() implies (#[trigger] index_of_queue(kept)[i]).deadline
                > now by {
                assert(kept[i] == queue[due + i]);
            }
            assert forall|i: int| 0 <= i < due implies (#[trigger] index_of_queue(queue)[i]).deadline
                <= now by {
                assert(queue[i].expiration_time <= now);
            }
            assert forall|a: int, b: int| 0 <= a <= b < kept.len() implies (#[trigger] kept[a]).expiration_time
                <= (#[trigger] kept[b]).expiration_time by {
                assert(kept[a] == queue[due + a]);
                assert(kept[b] == queue[due + b]);
            }
            assert forall|a: int|
                0 <= a < self.data@.len() && (#[trigger] self.data@[a]).expiration is Some implies indexed(
                kept,
                self.data@[a].key@,
                self.data@[a].expiration->0,
            ) by {
                lemma_model_at(self.data@, a);
                let key = self.data@[a].key@;
                let time = self.data@[a].expiration->0;
                assert(!awaits(queue, due as int, due as int, key, model(self.data@)[key]));
                assert(indexed(queue, key, time));
                let j = choose|j: int|
                    0 <= j < queue.len() && (#[trigger] queue[j]).key@ == key
                        && queue[j].expiration_time == time;
                assert(kept[j - due] == queue[j]);
            }
            assert(model(self.data@) =~= unexpired(start, now)) by {
                assert forall|key: Seq<char>| #[trigger]
                    model(self.data@).contains_key(key) implies !expired(
                    model(self.data@)[key],
                    now,
                ) by {
                    assert(!awaits(queue, due as int, due as int, key, model(self.data@)[key]));
                }
            }
        }
        removed
    }

    /// Tells the keyspace that its sweeps are to stop. Telling it again
    /// changes nothing.
    pub fn shutdown(&mut self)
        requires
            old(self).wf(),
        ensures
            final(self).wf(),
            final(self).is_stopped(),
            final(self)@ == old(self)@,
            final(self).index() == old(self).index(),
    {
        self.stopped = true;
    }

    /// Whether the keyspace was told to stop its sweeps.
    pub fn stopped(&self) -> (stopped: bool)
        ensures
            stopped == self.is_stopped(),
    {
        self.stopped
    }
}

} // verus!
