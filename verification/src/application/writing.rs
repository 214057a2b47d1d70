//! Writing to typed collections.

use crate::api::atomic::{self, AtomicResult};
use crate::api::bucket::{Bucket, Space};
use crate::api::changes::ChangeOperation;
use crate::api::cursor::{self, CursorView};
use crate::api::map::Keys;
use crate::api::tree::{self, Tree};
use crate::api::ttl;
use crate::application::collection::{self, ReadCollection, Stop};
use crate::application::iter::{self, CollectionIter, Found, Scan};
use crate::bytes::{self, less};
use crate::data::DataView;
use crate::error::Error;
use crate::typed::{self, read_value, CodecError, KeyCodec, ValueCodec};
use std::marker::PhantomData;
use vstd::prelude::*;

verus! {

/// Optional behavior attached to a typed write.
#[derive(Clone, Copy, Debug)]
pub struct WriteOptions {
    /// When the entry expires, in milliseconds since the epoch.
    pub expires_at: Option<u64>,
}

impl WriteOptions {
    /// An entry that expires.
    pub fn expires_at(time: u64) -> (r: Self)
        ensures
            r.expires_at == Some(time),
    {
        WriteOptions { expires_at: Some(time) }
    }
}

impl Default for WriteOptions {
    fn default() -> (r: Self)
        ensures
            r.expires_at is None,
    {
        WriteOptions { expires_at: None }
    }
}

/// Marker implemented only by codecs intended for numeric updates.
pub trait NumericValueCodec<N>: ValueCodec<N> {

}

/// Owned result of a typed compare-and-exchange operation.
#[derive(Clone, Debug, PartialEq, Eq)]
pub struct CompareOutcome<V> {
    pub applied: bool,
    pub observed: Option<V>,
    pub current: Option<V>,
}

/// Write capability for a typed collection.
pub struct WriteCollection<'a, K, V, C> {
    pub raw: Bucket<'a>,
    pub codec: &'a C,
    pub marker: PhantomData<(K, V)>,
}

/// Why a write among several was refused.
pub enum Refusal {
    Storage(Error),
    /// A key or a value could not be turned into bytes, or was not readable.
    Codec,
    /// A key does not come after the one before it.
    Order,
}

/// Whether an error tells why a write was refused.
pub open spec fn tells(e: CodecError, why: Refusal) -> bool {
    match why {
        Refusal::Storage(f) => e == CodecError::Storage(f),
        Refusal::Codec => true,
        Refusal::Order => e is InputNotOrdered,
    }
}

/// Whether bytes, if there are any, are readable as a value.
pub open spec fn readable<V, C: ValueCodec<V>>(codec: C, stored: Option<Seq<u8>>) -> bool {
    stored matches Some(s) ==> exists|value: V| codec.reads_value(s, value)
}

/// Storing bytes under a key, with a deadline or without.
pub open spec fn inserted(
    s: Space,
    path: Seq<Seq<u8>>,
    key: Seq<u8>,
    value: Seq<u8>,
    deadline: Option<u64>,
) -> (Result<Option<Seq<u8>>, Error>, Space) {
    match deadline {
        Some(d) => ttl::put_expiring(s, path, key, value, d),
        None => ttl::put_lasting(s, path, key, value),
    }
}

/// Whether a result, and what is there after it, are those of storing a value.
pub open spec fn insert_told<K, V, C: KeyCodec<K> + ValueCodec<V>>(
    codec: C,
    s: Space,
    path: Seq<Seq<u8>>,
    key: K,
    value: V,
    deadline: Option<u64>,
    r: Result<Option<V>, CodecError>,
    after: Space,
) -> bool {
    match (codec.key_bytes(key), codec.value_bytes(value)) {
        (Some(k), Some(v)) => {
            let (want, then) = inserted(s, path, k, v, deadline);
            &&& after == then
            &&& match want {
                Err(e) => r == Err::<Option<V>, CodecError>(CodecError::Storage(e)),
                Ok(before) => typed::value_read(codec, before, r),
            }
        },
        _ => r is Err && after == s,
    }
}

/// Storing one value among several.
pub open spec fn insert_one<K, V, C: KeyCodec<K> + ValueCodec<V>>(
    codec: C,
    s: Space,
    path: Seq<Seq<u8>>,
    entry: (K, V),
) -> (Option<Refusal>, Space) {
    match (codec.key_bytes(entry.0), codec.value_bytes(entry.1)) {
        (Some(k), Some(v)) => match inserted(s, path, k, v, None) {
            (Err(e), s) => (Some(Refusal::Storage(e)), s),
            (Ok(before), s) => if readable::<V, C>(codec, before) {
                (None, s)
            } else {
                (Some(Refusal::Codec), s)
            },
        },
        _ => (Some(Refusal::Codec), s),
    }
}

/// Storing several values, up to the first that is refused.
pub open spec fn insert_all<K, V, C: KeyCodec<K> + ValueCodec<V>>(
    codec: C,
    s: Space,
    path: Seq<Seq<u8>>,
    entries: Seq<(K, V)>,
) -> (Option<Refusal>, Space)
    decreases entries.len(),
{
    if entries.len() == 0 {
        (None, s)
    } else {
        match insert_all(codec, s, path, entries.drop_last()) {
            (None, s) => insert_one(codec, s, path, entries.last()),
            (why, s) => (why, s),
        }
    }
}

proof fn lemma_insert_all_stops<K, V, C: KeyCodec<K> + ValueCodec<V>>(
    codec: C,
    s: Space,
    path: Seq<Seq<u8>>,
    entries: Seq<(K, V)>,
    n: int,
)
    requires
        0 <= n <= entries.len(),
        insert_all(codec, s, path, entries.take(n)).0 is Some,
    ensures
        insert_all(codec, s, path, entries) == insert_all(codec, s, path, entries.take(n)),
    decreases entries.len(),
{
    if n < entries.len() {
        assert(entries.drop_last().take(n) =~= entries.take(n));
        lemma_insert_all_stops(codec, s, path, entries.drop_last(), n);
    } else {
        assert(entries.take(n) =~= entries);
    }
}

/// Storing one value of an ordered input.
pub open spec fn append_one<K, V, C: KeyCodec<K> + ValueCodec<V>>(
    codec: C,
    s: Space,
    path: Seq<Seq<u8>>,
    prior: Option<Seq<u8>>,
    entry: (K, V),
) -> (Option<Refusal>, Space) {
    match codec.key_bytes(entry.0) {
        None => (Some(Refusal::Codec), s),
        Some(k) => if prior matches Some(p) && !bytes::lex_lt(p, k) {
            (Some(Refusal::Order), s)
        } else {
            match codec.value_bytes(entry.1) {
                None => (Some(Refusal::Codec), s),
                Some(v) => match ttl::put_lasting(s, path, k, v) {
                    (Err(e), s) => (Some(Refusal::Storage(e)), s),
                    (Ok(_), s) => (None, s),
                },
            }
        },
    }
}

/// The bytes of the last key of an input.
pub open spec fn last_key<K, V, C: KeyCodec<K>>(codec: C, entries: Seq<(K, V)>) -> Option<Seq<u8>> {
    if entries.len() == 0 {
        None
    } else {
        codec.key_bytes(entries.last().0)
    }
}

/// Storing the values of an ordered input, up to the first that is refused.
pub open spec fn append_all<K, V, C: KeyCodec<K> + ValueCodec<V>>(
    codec: C,
    s: Space,
    path: Seq<Seq<u8>>,
    entries: Seq<(K, V)>,
) -> (Option<Refusal>, Space)
    decreases entries.len(),
{
    if entries.len() == 0 {
        (None, s)
    } else {
        match append_all(codec, s, path, entries.drop_last()) {
            (None, s) => append_one(
                codec,
                s,
                path,
                last_key(codec, entries.drop_last()),
                entries.last(),
            ),
            (why, s) => (why, s),
        }
    }
}

proof fn lemma_append_all_stops<K, V, C: KeyCodec<K> + ValueCodec<V>>(
    codec: C,
    s: Space,
    path: Seq<Seq<u8>>,
    entries: Seq<(K, V)>,
    n: int,
)
    requires
        0 <= n <= entries.len(),
        append_all(codec, s, path, entries.take(n)).0 is Some,
    ensures
        append_all(codec, s, path, entries) == append_all(codec, s, path, entries.take(n)),
    decreases entries.len(),
{
    if n < entries.len() {
        assert(entries.drop_last().take(n) =~= entries.take(n));
        lemma_append_all_stops(codec, s, path, entries.drop_last(), n);
    } else {
        assert(entries.take(n) =~= entries);
    }
}

/// An ordered input that is stored whole has its keys in strictly ascending
/// byte order.
pub proof fn law_ordered_input_ascends<K, V, C: KeyCodec<K> + ValueCodec<V>>(
    codec: C,
    s: Space,
    path: Seq<Seq<u8>>,
    entries: Seq<(K, V)>,
    i: int,
    j: int,
)
    requires
        append_all(codec, s, path, entries).0 is None,
        0 <= i < j < entries.len(),
    ensures
        codec.key_bytes(entries[i].0) is Some,
        codec.key_bytes(entries[j].0) is Some,
        bytes::lex_lt(
            codec.key_bytes(entries[i].0)->Some_0,
            codec.key_bytes(entries[j].0)->Some_0,
        ),
    decreases entries.len(),
{
    let front = entries.drop_last();
    assert(append_all(codec, s, path, front).0 is None);
    if j < entries.len() - 1 {
        law_ordered_input_ascends(codec, s, path, front, i, j);
    } else {
        let m = j - 1;
        assert(front.last() == entries[m]);
        assert(append_all(codec, s, path, front.drop_last()).0 is None);
        assert(codec.key_bytes(entries[m].0) is Some);
        if i < m {
            law_ordered_input_ascends(codec, s, path, front, i, m);
            bytes::lemma_lex_transitive(
                codec.key_bytes(entries[i].0)->Some_0,
                codec.key_bytes(entries[m].0)->Some_0,
                codec.key_bytes(entries[j].0)->Some_0,
            );
        }
    }
}

/// Whether a result, and what is there after it, are those of taking a value
/// out. One that is not readable stays.
pub open spec fn take_told<K, V, C: KeyCodec<K> + ValueCodec<V>>(
    codec: C,
    s: Space,
    path: Seq<Seq<u8>>,
    key: K,
    r: Result<Option<V>, CodecError>,
    after: Space,
) -> bool {
    match codec.key_bytes(key) {
        None => r is Err && after == s,
        Some(k) => match tree::value_of(s.tree, k) {
            None => r == Ok::<Option<V>, CodecError>(None) && after == s,
            Some(stored) => if !readable::<V, C>(codec, Some(stored)) {
                r is Err && after == s
            } else {
                let (want, then) = ttl::removed(s, path, k);
                &&& after == then
                &&& match want {
                    Err(e) => r == Err::<Option<V>, CodecError>(CodecError::Storage(e)),
                    Ok(_) => r matches Ok(Some(value)) && codec.reads_value(stored, value),
                }
            },
        },
    }
}

/// Taking one value out among several.
pub open spec fn take_one<K, V, C: KeyCodec<K> + ValueCodec<V>>(
    codec: C,
    s: Space,
    path: Seq<Seq<u8>>,
    key: K,
) -> (Option<Refusal>, Space) {
    match codec.key_bytes(key) {
        None => (Some(Refusal::Codec), s),
        Some(k) => match tree::value_of(s.tree, k) {
            None => (None, s),
            Some(stored) => if !readable::<V, C>(codec, Some(stored)) {
                (Some(Refusal::Codec), s)
            } else {
                match ttl::removed(s, path, k) {
                    (Err(e), s) => (Some(Refusal::Storage(e)), s),
                    (Ok(_), s) => (None, s),
                }
            },
        },
    }
}

/// Taking several values out, up to the first that is refused.
pub open spec fn take_all<K, V, C: KeyCodec<K> + ValueCodec<V>>(
    codec: C,
    s: Space,
    path: Seq<Seq<u8>>,
    keys: Seq<K>,
) -> (Option<Refusal>, Space)
    decreases keys.len(),
{
    if keys.len() == 0 {
        (None, s)
    } else {
        match take_all::<K, V, C>(codec, s, path, keys.drop_last()) {
            (None, s) => take_one::<K, V, C>(codec, s, path, keys.last()),
            (why, s) => (why, s),
        }
    }
}

proof fn lemma_take_all_stops<K, V, C: KeyCodec<K> + ValueCodec<V>>(
    codec: C,
    s: Space,
    path: Seq<Seq<u8>>,
    keys: Seq<K>,
    n: int,
)
    requires
        0 <= n <= keys.len(),
        take_all::<K, V, C>(codec, s, path, keys.take(n)).0 is Some,
    ensures
        take_all::<K, V, C>(codec, s, path, keys) == take_all::<K, V, C>(
            codec,
            s,
            path,
            keys.take(n),
        ),
    decreases keys.len(),
{
    if n < keys.len() {
        assert(keys.drop_last().take(n) =~= keys.take(n));
        lemma_take_all_stops::<K, V, C>(codec, s, path, keys.drop_last(), n);
    } else {
        assert(keys.take(n) =~= keys);
    }
}

/// Every pair that a traversal finds.
pub open spec fn gathered(
    l: Seq<DataView>,
    c: CursorView,
    q: Scan,
    table: Result<Option<Tree>, Error>,
    now: u64,
) -> (Seq<(Seq<u8>, Seq<u8>)>, Stop) {
    let (pairs, stop, _) = collection::taken(
        l,
        c,
        q,
        table,
        now,
        iter::left(l, c, q.reverse) + 1,
    );
    (pairs, stop)
}

/// Whether keys are what the keys of pairs are read as, one for one.
pub open spec fn keys_read<K, C: KeyCodec<K>>(
    codec: C,
    pairs: Seq<(Seq<u8>, Seq<u8>)>,
    keys: Seq<K>,
) -> bool {
    &&& keys.len() == pairs.len()
    &&& forall|i: int| 0 <= i < pairs.len() ==> codec.reads_key(pairs[i].0, #[trigger] keys[i])
}

/// Whether a result, and what is there after it, are those of taking out all
/// that a traversal finds.
pub open spec fn swept<K, V, C: KeyCodec<K> + ValueCodec<V>>(
    codec: C,
    s: Space,
    path: Seq<Seq<u8>>,
    found: (Seq<(Seq<u8>, Seq<u8>)>, Stop),
    r: Result<usize, CodecError>,
    after: Space,
) -> bool {
    let (pairs, stop) = found;
    match r {
        Ok(n) => {
            &&& stop is End
            &&& n == pairs.len()
            &&& exists|keys: Seq<K>|
                keys_read(codec, pairs, keys) && #[trigger] take_all::<K, V, C>(
                    codec,
                    s,
                    path,
                    keys,
                ) == (None::<Refusal>, after)
        },
        Err(e) => {
            ||| ((stop is Fault || collection::one_unreadable::<K, V, C>(codec, pairs)) && after
                == s)
            ||| (stop is End && exists|keys: Seq<K>|
                keys_read(codec, pairs, keys) && (#[trigger] take_all::<K, V, C>(
                    codec,
                    s,
                    path,
                    keys,
                )).1 == after && (take_all::<K, V, C>(codec, s, path, keys).0 matches Some(why)
                    && tells(e, why)))
        },
    }
}

/// A pair that was found is one entry fewer that is left.
proof fn lemma_found_moves(
    l: Seq<DataView>,
    c: CursorView,
    q: Scan,
    table: Result<Option<Tree>, Error>,
    now: u64,
)
    requires
        cursor::sound(l, c),
    ensures
        cursor::sound(l, iter::found(l, c, q, table, now).1),
        iter::found(l, c, q, table, now).0 is Pair ==> iter::left(
            l,
            iter::found(l, c, q, table, now).1,
            q.reverse,
        ) < iter::left(l, c, q.reverse),
    decreases iter::left(l, c, q.reverse),
{
    iter::lemma_moved(l, c, q.reverse);
    let (data, after) = iter::moved(l, c, q.reverse);
    match data {
        None => {},
        Some(DataView::Bucket(_)) => lemma_found_moves(l, after, q, table, now),
        Some(DataView::KeyValue(key, value)) => {
            if !iter::beyond(q, key) {
                match table {
                    Ok(Some(t)) => {
                        if iter::lives(t, key, now) == Ok::<bool, Error>(false) {
                            lemma_found_moves(l, after, q, table, now);
                        }
                    },
                    _ => {},
                }
            }
        },
    }
}

/// Everything that is found was left.
proof fn lemma_taken_left(
    l: Seq<DataView>,
    c: CursorView,
    q: Scan,
    table: Result<Option<Tree>, Error>,
    now: u64,
    n: nat,
)
    requires
        cursor::sound(l, c),
    ensures
        ({
            let (pairs, stop, at) = collection::taken(l, c, q, table, now, n);
            &&& cursor::sound(l, at)
            &&& stop is Full ==> n + iter::left(l, at, q.reverse) <= iter::left(l, c, q.reverse)
        }),
    decreases n,
{
    if n > 0 {
        lemma_taken_left(l, c, q, table, now, (n - 1) as nat);
        let at = collection::taken(l, c, q, table, now, (n - 1) as nat).2;
        lemma_found_moves(l, at, q, table, now);
    }
}

/// Collects the keys of all that a traversal finds.
pub fn gather<'a, K, V, C: KeyCodec<K> + ValueCodec<V>>(
    traversal: CollectionIter<'a, K, V, C>,
    now: u64,
) -> (r: Result<Vec<K>, CodecError>)
    requires
        traversal.wf(),
        traversal.remaining is None,
        !traversal.reverse,
    ensures
        ({
            let (pairs, stop) = gathered(
                traversal.cursor.list(),
                traversal.cursor.state(),
                traversal.scan(),
                traversal.table(),
                now,
            );
            match r {
                Ok(keys) => stop is End && keys_read(*traversal.codec, pairs, keys@),
                Err(e) => stop is Fault || collection::one_unreadable::<K, V, C>(
                    *traversal.codec,
                    pairs,
                ),
            }
        }),
{
    let ghost l = traversal.cursor.list();
    let ghost c = traversal.cursor.state();
    let ghost q = traversal.scan();
    let ghost table = traversal.table();
    let ghost codec = *traversal.codec;
    let ghost total = iter::left(l, c, q.reverse) + 1;
    let mut it: CollectionIter<'a, K, V, C> = traversal;
    let mut keys: Vec<K> = Vec::new();
    loop
        invariant
            it.wf(),
            it.cursor.list() == l,
            it.scan() == q,
            it.codec == codec,
            it.remaining is None,
            it.table() == table,
            cursor::sound(l, c),
            total == iter::left(l, c, q.reverse) + 1,
            l == traversal.cursor.list(),
            c == traversal.cursor.state(),
            q == traversal.scan(),
            table == traversal.table(),
            codec == *traversal.codec,
            ({
                let (pairs, stop, at) = collection::taken(l, c, q, table, now, keys@.len());
                &&& keys_read(codec, pairs, keys@)
                &&& stop is Full
                &&& at == it.cursor.state()
            }),
        decreases iter::left(l, it.cursor.state(), q.reverse),
    {
        let ghost k = keys@.len();
        let ghost was = keys@;
        let ghost (pairs, stop, at) = collection::taken(l, c, q, table, now, k);
        let ghost upto = collection::taken(l, c, q, table, now, k + 1);
        proof {
            lemma_taken_left(l, c, q, table, now, k);
            lemma_found_moves(l, at, q, table, now);
            collection::lemma_taken_full(l, c, q, table, now, k);
        }
        match it.next(now) {
            None => {
                proof {
                    collection::lemma_taken_stops(l, c, q, table, now, k + 1, total);
                }
                return Ok(keys);
            },
            Some(Err(e)) => {
                proof {
                    match iter::found(l, at, q, table, now).0 {
                        Found::Pair(key, value) => {
                            collection::lemma_taken_begins(l, c, q, table, now, k + 1, total);
                            let all = collection::taken(l, c, q, table, now, total).0;
                            assert(upto.0[k as int] == (key, value));
                            assert(all[k as int] == upto.0[k as int]);
                        },
                        _ => {
                            collection::lemma_taken_stops(l, c, q, table, now, k + 1, total);
                        },
                    }
                }
                return Err(e);
            },
            Some(Ok((key, _))) => {
                keys.push(key);
                proof {
                    assert forall|j: int| 0 <= j < upto.0.len() implies codec.reads_key(
                        upto.0[j].0,
                        #[trigger] keys@[j],
                    ) by {
                        if j < k {
                            assert(keys@[j] == was[j]);
                            assert(upto.0[j] == pairs[j]);
                        }
                    }
                }
            },
        }
    }
}

/// Whether a typed outcome is that of an exchange.
pub open spec fn outcome_read<V, C: ValueCodec<V>>(
    codec: C,
    want: Result<atomic::AtomicView, Error>,
    r: Result<CompareOutcome<V>, CodecError>,
) -> bool {
    match want {
        Err(e) => r == Err::<CompareOutcome<V>, CodecError>(CodecError::Storage(e)),
        Ok(a) => match r {
            Ok(outcome) => {
                &&& outcome.applied == a.applied
                &&& typed::value_read(
                    codec,
                    a.observed,
                    Ok::<Option<V>, CodecError>(outcome.observed),
                )
                &&& typed::value_read(codec, a.current, Ok::<Option<V>, CodecError>(outcome.current))
            },
            Err(_) => !readable::<V, C>(codec, a.observed) || !readable::<V, C>(codec, a.current),
        },
    }
}

/// Optional bytes by reference.
fn borrowed(stored: &Option<Vec<u8>>) -> (r: Option<&Vec<u8>>)
    ensures
        match (r, *stored) {
            (Some(a), Some(b)) => *a == b,
            (None, None) => true,
            _ => false,
        },
{
    match stored {
        Some(s) => Some(s),
        None => None,
    }
}

impl<'a, K, V, C> WriteCollection<'a, K, V, C> {
    /// Whether the collection is in order, and can be written to.
    pub open spec fn wf(&self) -> bool {
        self.raw.wf() && self.raw.writable
    }
}

impl<'a, K, V, C: KeyCodec<K> + ValueCodec<V>> WriteCollection<'a, K, V, C> {
    /// The collection with read-only capabilities.
    pub fn as_read(&self) -> (r: ReadCollection<'_, K, V, C>)
        requires
            self.wf(),
        ensures
            r.wf(),
            r.node@ == self.raw.space().tree,
            *r.codec == *self.codec,
    {
        ReadCollection { node: &*self.raw.node, codec: self.codec, marker: PhantomData }
    }

    /// The value under a key that has not expired at `now`.
    pub fn get(&self, key: &K, now: u64) -> (r: Result<Option<V>, CodecError>)
        requires
            self.wf(),
        ensures
            collection::got(*self.codec, self.raw.space().tree, *key, now, r),
    {
        self.as_read().get(key, now)
    }

    /// Whether there is a live value under a key.
    pub fn contains_key(&self, key: &K, now: u64) -> (r: Result<bool, CodecError>)
        requires
            self.wf(),
        ensures
            match r {
                Ok(true) => exists|value: V|
                    #[trigger] collection::got(
                        *self.codec,
                        self.raw.space().tree,
                        *key,
                        now,
                        Ok::<Option<V>, CodecError>(Some(value)),
                    ),
                Ok(false) => collection::got(
                    *self.codec,
                    self.raw.space().tree,
                    *key,
                    now,
                    Ok::<Option<V>, CodecError>(None),
                ),
                Err(e) => collection::got(
                    *self.codec,
                    self.raw.space().tree,
                    *key,
                    now,
                    Err::<Option<V>, CodecError>(e),
                ),
            },
    {
        self.as_read().contains_key(key, now)
    }

    /// Every live entry, toward larger keys.
    pub fn iter(&self) -> (r: CollectionIter<'_, K, V, C>)
        requires
            self.wf(),
        ensures
            r.wf(),
            r.cursor.list() == cursor::data_in(self.raw.space().tree),
            r.cursor.state() == cursor::unplaced(),
            r.table() == iter::table_of(self.raw.space().tree),
            *r.codec == *self.codec,
            r.remaining is None,
            r.scan() == iter::everything(),
    {
        self.as_read().iter()
    }

    /// Every live entry, toward smaller keys.
    pub fn iter_rev(&self) -> (r: CollectionIter<'_, K, V, C>)
        requires
            self.wf(),
        ensures
            r.wf(),
            r.cursor.list() == cursor::data_in(self.raw.space().tree),
            r.cursor.state() == collection::at_last(r.cursor.list()),
            r.table() == iter::table_of(self.raw.space().tree),
            *r.codec == *self.codec,
            r.remaining is None,
            r.scan() == collection::everything_back(),
    {
        self.as_read().iter_rev()
    }

    /// Stores a value that does not expire, and hands back the one before.
    pub fn insert(&mut self, key: &K, value: &V) -> (r: Result<Option<V>, CodecError>)
        requires
            old(self).wf(),
        ensures
            final(self).wf(),
            final(self).codec == old(self).codec,
            final(self).raw.path == old(self).raw.path,
            *final(final(self).raw.node) == *final(old(self).raw.node),
            *final(final(self).raw.log) == *final(old(self).raw.log),
            insert_told(
                *old(self).codec,
                old(self).raw.space(),
                old(self).raw.at(),
                *key,
                *value,
                None,
                r,
                final(self).raw.space(),
            ),
    {
        self.insert_with_options(key, value, WriteOptions { expires_at: None })
    }

    /// Stores a value, and hands back the one before.
    pub fn insert_with_options(&mut self, key: &K, value: &V, options: WriteOptions) -> (r: Result<
        Option<V>,
        CodecError,
    >)
        requires
            old(self).wf(),
        ensures
            final(self).wf(),
            final(self).codec == old(self).codec,
            final(self).raw.path == old(self).raw.path,
            *final(final(self).raw.node) == *final(old(self).raw.node),
            *final(final(self).raw.log) == *final(old(self).raw.log),
            insert_told(
                *old(self).codec,
                old(self).raw.space(),
                old(self).raw.at(),
                *key,
                *value,
                options.expires_at,
                r,
                final(self).raw.space(),
            ),
    {
        let k: Vec<u8> = match self.codec.encode_key(key) {
            Ok(k) => k,
            Err(e) => return Err(e),
        };
        let v: Vec<u8> = match self.codec.encode_value(value) {
            Ok(v) => v,
            Err(e) => return Err(e),
        };
        let before: Option<Vec<u8>> = match options.expires_at {
            Some(deadline) => match self.raw.put_with_ttl(&k, v, deadline) {
                Ok(result) => result.previous,
                Err(e) => return Err(CodecError::Storage(e)),
            },
            None => match self.raw.put_lasting(&k, v) {
                Ok(before) => before,
                Err(e) => return Err(CodecError::Storage(e)),
            },
        };
        read_value(self.codec, borrowed(&before))
    }

    /// Takes a value out, with its deadline.
    pub fn remove(&mut self, key: &K) -> (r: Result<Option<V>, CodecError>)
        requires
            old(self).wf(),
        ensures
            final(self).wf(),
            final(self).codec == old(self).codec,
            final(self).raw.path == old(self).raw.path,
            *final(final(self).raw.node) == *final(old(self).raw.node),
            *final(final(self).raw.log) == *final(old(self).raw.log),
            take_told(
                *old(self).codec,
                old(self).raw.space(),
                old(self).raw.at(),
                *key,
                r,
                final(self).raw.space(),
            ),
    {
        let k: Vec<u8> = match self.codec.encode_key(key) {
            Ok(k) => k,
            Err(e) => return Err(e),
        };
        let value: V = match self.raw.get_kv(&k) {
            None => return Ok(None),
            Some(stored) => match self.codec.decode_value(stored) {
                Ok(value) => value,
                Err(e) => return Err(e),
            },
        };
        match self.raw.delete(&k) {
            Ok(_) => {},
            Err(e) => return Err(CodecError::Storage(e)),
        }
        match self.raw.clear_ttl(&k) {
            Ok(_) => Ok(Some(value)),
            Err(e) => Err(CodecError::Storage(e)),
        }
    }

    /// Stores several values, up to the first that is refused.
    pub fn insert_many(&mut self, entries: &Vec<(K, V)>) -> (r: Result<(), CodecError>)
        requires
            old(self).wf(),
        ensures
            final(self).wf(),
            final(self).codec == old(self).codec,
            final(self).raw.path == old(self).raw.path,
            *final(final(self).raw.node) == *final(old(self).raw.node),
            *final(final(self).raw.log) == *final(old(self).raw.log),
            ({
                let (why, after) = insert_all(
                    *old(self).codec,
                    old(self).raw.space(),
                    old(self).raw.at(),
                    entries@,
                );
                &&& final(self).raw.space() == after
                &&& match r {
                    Ok(_) => why is None,
                    Err(e) => why matches Some(w) && tells(e, w),
                }
            }),
    {
        let ghost codec = *self.codec;
        let ghost s = self.raw.space();
        let ghost at = self.raw.at();
        let mut i: usize = 0;
        assert(entries@.take(0) =~= Seq::<(K, V)>::empty());
        while i < entries.len()
            invariant
                i <= entries@.len(),
                self.wf(),
                self.codec == old(self).codec,
                codec == *old(self).codec,
                s == old(self).raw.space(),
                at == old(self).raw.at(),
                self.raw.path == old(self).raw.path,
                *final(self.raw.node) == *final(old(self).raw.node),
                *final(self.raw.log) == *final(old(self).raw.log),
                insert_all(codec, s, at, entries@.take(i as int)) == (
                    None::<Refusal>,
                    self.raw.space(),
                ),
            decreases entries@.len() - i,
        {
            proof {
                assert(entries@.take(i + 1).drop_last() =~= entries@.take(i as int));
                assert(entries@.take(i + 1).last() == entries@[i as int]);
            }
            let entry: &(K, V) = &entries[i];
            match self.insert(&entry.0, &entry.1) {
                Ok(_) => {},
                Err(e) => {
                    proof {
                        lemma_insert_all_stops(codec, s, at, entries@, i + 1);
                    }
                    return Err(e);
                },
            }
            i = i + 1;
        }
        assert(entries@.take(i as int) =~= entries@);
        Ok(())
    }

    /// Takes several values out, up to the first that is refused.
    pub fn remove_many(&mut self, keys: &Vec<K>) -> (r: Result<Vec<Option<V>>, CodecError>)
        requires
            old(self).wf(),
        ensures
            final(self).wf(),
            final(self).codec == old(self).codec,
            final(self).raw.path == old(self).raw.path,
            *final(final(self).raw.node) == *final(old(self).raw.node),
            *final(final(self).raw.log) == *final(old(self).raw.log),
            ({
                let codec = *old(self).codec;
                let s = old(self).raw.space();
                let at = old(self).raw.at();
                let (why, after) = take_all::<K, V, C>(codec, s, at, keys@);
                &&& final(self).raw.space() == after
                &&& match r {
                    Ok(values) => why is None && values@.len() == keys@.len() && forall|i: int|
                        0 <= i < keys@.len() ==> take_told(
                            codec,
                            take_all::<K, V, C>(codec, s, at, keys@.take(i)).1,
                            at,
                            #[trigger] keys@[i],
                            Ok::<Option<V>, CodecError>(values@[i]),
                            take_all::<K, V, C>(codec, s, at, keys@.take(i + 1)).1,
                        ),
                    Err(e) => why matches Some(w) && tells(e, w),
                }
            }),
    {
        let ghost codec = *self.codec;
        let ghost s = self.raw.space();
        let ghost at = self.raw.at();
        let mut out: Vec<Option<V>> = Vec::new();
        let mut i: usize = 0;
        assert(keys@.take(0) =~= Seq::<K>::empty());
        while i < keys.len()
            invariant
                i <= keys@.len(),
                out@.len() == i,
                self.wf(),
                self.codec == old(self).codec,
                codec == *old(self).codec,
                s == old(self).raw.space(),
                at == old(self).raw.at(),
                self.raw.path == old(self).raw.path,
                *final(self.raw.node) == *final(old(self).raw.node),
                *final(self.raw.log) == *final(old(self).raw.log),
                take_all::<K, V, C>(codec, s, at, keys@.take(i as int)) == (
                    None::<Refusal>,
                    self.raw.space(),
                ),
                forall|j: int|
                    0 <= j < i ==> take_told(
                        codec,
                        take_all::<K, V, C>(codec, s, at, keys@.take(j)).1,
                        at,
                        #[trigger] keys@[j],
                        Ok::<Option<V>, CodecError>(out@[j]),
                        take_all::<K, V, C>(codec, s, at, keys@.take(j + 1)).1,
                    ),
            decreases keys@.len() - i,
        {
            proof {
                assert(keys@.take(i + 1).drop_last() =~= keys@.take(i as int));
                assert(keys@.take(i + 1).last() == keys@[i as int]);
            }
            match self.remove(&keys[i]) {
                Ok(value) => out.push(value),
                Err(e) => {
                    proof {
                        lemma_take_all_stops::<K, V, C>(codec, s, at, keys@, i + 1);
                    }
                    return Err(e);
                },
            }
            i = i + 1;
        }
        assert(keys@.take(i as int) =~= keys@);
        Ok(out)
    }

    /// Inserts strictly increasing input through one collection handle.
    pub fn insert_ordered(&mut self, entries: &Vec<(K, V)>) -> (r: Result<usize, CodecError>)
        requires
            old(self).wf(),
        ensures
            final(self).wf(),
            final(self).codec == old(self).codec,
            final(self).raw.path == old(self).raw.path,
            *final(final(self).raw.node) == *final(old(self).raw.node),
            *final(final(self).raw.log) == *final(old(self).raw.log),
            if !C::ORDER_PRESERVING {
                r is Err && r->Err_0 is OrderingRequired && final(self).raw.space() == old(
                    self
                ).raw.space()
            } else {
                let (why, after) = append_all(
                    *old(self).codec,
                    old(self).raw.space(),
                    old(self).raw.at(),
                    entries@,
                );
                &&& final(self).raw.space() == after
                &&& match r {
                    Ok(n) => why is None && n == entries@.len(),
                    Err(e) => why matches Some(w) && tells(e, w),
                }
            },
    {
        if !C::ORDER_PRESERVING {
            return Err(CodecError::OrderingRequired);
        }
        let ghost codec = *self.codec;
        let ghost s = self.raw.space();
        let ghost at = self.raw.at();
        let mut prior: Option<Vec<u8>> = None;
        let mut i: usize = 0;
        assert(entries@.take(0) =~= Seq::<(K, V)>::empty());
        while i < entries.len()
            invariant
                i <= entries@.len(),
                C::ORDER_PRESERVING,
                self.wf(),
                self.codec == old(self).codec,
                codec == *old(self).codec,
                s == old(self).raw.space(),
                at == old(self).raw.at(),
                self.raw.path == old(self).raw.path,
                *final(self.raw.node) == *final(old(self).raw.node),
                *final(self.raw.log) == *final(old(self).raw.log),
                tree::seen(prior) == last_key(codec, entries@.take(i as int)),
                append_all(codec, s, at, entries@.take(i as int)) == (
                    None::<Refusal>,
                    self.raw.space(),
                ),
            decreases entries@.len() - i,
        {
            let ghost before = self.raw.space();
            proof {
                assert(entries@.take(i + 1).drop_last() =~= entries@.take(i as int));
                assert(entries@.take(i + 1).last() == entries@[i as int]);
                if append_one(
                    codec,
                    before,
                    at,
                    last_key(codec, entries@.take(i as int)),
                    entries@[i as int],
                ).0 is Some {
                    lemma_append_all_stops(codec, s, at, entries@, i + 1);
                }
            }
            let entry: &(K, V) = &entries[i];
            let k: Vec<u8> = match self.codec.encode_key(&entry.0) {
                Ok(k) => k,
                Err(e) => return Err(e),
            };
            match &prior {
                Some(p) => {
                    if !less(p, &k) {
                        return Err(CodecError::InputNotOrdered);
                    }
                },
                None => {},
            }
            let v: Vec<u8> = match self.codec.encode_value(&entry.1) {
                Ok(v) => v,
                Err(e) => return Err(e),
            };
            match self.raw.put_lasting(&k, v) {
                Ok(_) => {},
                Err(e) => return Err(CodecError::Storage(e)),
            }
            prior = Some(k);
            i = i + 1;
        }
        assert(entries@.take(i as int) =~= entries@);
        Ok(entries.len())
    }

    /// Removes every pair; how many there were.
    pub fn clear(&mut self) -> (r: Result<usize, CodecError>)
        requires
            old(self).wf(),
        ensures
            final(self).wf(),
            final(self).codec == old(self).codec,
            final(self).raw.path == old(self).raw.path,
            *final(final(self).raw.node) == *final(old(self).raw.node),
            *final(final(self).raw.log) == *final(old(self).raw.log),
            ({
                let s = old(self).raw.space();
                let keys = crate::api::map::picked(cursor::data_in(s.tree), Keys::All);
                r matches Ok(n) && n == keys.len() && final(self).raw.space() == (Space {
                    tree: crate::api::map::thinned(s.tree, Keys::All),
                    log: crate::api::map::noted_all(
                        s.log,
                        old(self).raw.at(),
                        keys,
                        ChangeOperation::Delete,
                    ),
                })
            }),
    {
        match self.raw.clear() {
            Ok(n) => Ok(n),
            Err(e) => Err(CodecError::Storage(e)),
        }
    }

    /// Replaces a value only when its current bytes are those of `expected`.
    pub fn compare_exchange(&mut self, key: &K, expected: Option<&V>, value: &V) -> (r: Result<
        CompareOutcome<V>,
        CodecError,
    >)
        requires
            old(self).wf(),
        ensures
            final(self).wf(),
            final(self).codec == old(self).codec,
            final(self).raw.path == old(self).raw.path,
            *final(final(self).raw.node) == *final(old(self).raw.node),
            *final(final(self).raw.log) == *final(old(self).raw.log),
            ({
                let codec = *old(self).codec;
                let wanted = match expected {
                    Some(e) => codec.value_bytes(*e),
                    None => None,
                };
                if codec.key_bytes(*key) is None || codec.value_bytes(*value) is None || (expected
                    is Some && wanted is None) {
                    r is Err && final(self).raw.space() == old(self).raw.space()
                } else {
                    let (want, after) = atomic::exchange(
                        old(self).raw.space(),
                        old(self).raw.at(),
                        codec.key_bytes(*key)->Some_0,
                        wanted,
                        codec.value_bytes(*value)->Some_0,
                    );
                    final(self).raw.space() == after && outcome_read(codec, want, r)
                }
            }),
    {
        let k: Vec<u8> = match self.codec.encode_key(key) {
            Ok(k) => k,
            Err(e) => return Err(e),
        };
        let wanted: Option<Vec<u8>> = match expected {
            Some(expected) => match self.codec.encode_value(expected) {
                Ok(wanted) => Some(wanted),
                Err(e) => return Err(e),
            },
            None => None,
        };
        let v: Vec<u8> = match self.codec.encode_value(value) {
            Ok(v) => v,
            Err(e) => return Err(e),
        };
        let given: Option<&[u8]> = match &wanted {
            Some(wanted) => Some(wanted.as_slice()),
            None => None,
        };
        let result: AtomicResult = match self.raw.compare_exchange(&k, given, v) {
            Ok(result) => result,
            Err(e) => return Err(CodecError::Storage(e)),
        };
        let observed: Option<V> = match read_value(self.codec, borrowed(&result.observed)) {
            Ok(observed) => observed,
            Err(e) => return Err(e),
        };
        let current: Option<V> = match read_value(self.codec, borrowed(&result.current)) {
            Ok(current) => current,
            Err(e) => return Err(e),
        };
        Ok(CompareOutcome { applied: result.applied, observed, current })
    }
}

} // verus!
