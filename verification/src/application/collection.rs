//! Reading typed collections.

use crate::api::cursor::{self, Cursor, CursorView};
use crate::api::map::{pick, Keys};
use crate::api::tree::{self, Node, Tree};
use crate::api::ttl::{self, live_value};
use crate::application::iter::{
    self, expiration_bucket, CollectionIter, Found, PageToken, Scan, ScanPage,
};
use crate::bytes::{self, less, owned};
use crate::data::{Data, DataView};
use crate::error::Error;
use crate::typed::{self, read_value, CodecError, KeyCodec, ValueCodec};
use std::marker::PhantomData;
use vstd::prelude::*;

verus! {

/// Read capability for a typed collection.
///
/// It intentionally exposes no mutating methods.
pub struct ReadCollection<'a, K, V, C> {
    pub node: &'a Node,
    pub codec: &'a C,
    pub marker: PhantomData<(K, V)>,
}

/// Whether a result is the live value under a key.
pub open spec fn got<K, V, C: KeyCodec<K> + ValueCodec<V>>(
    codec: C,
    t: Tree,
    key: K,
    now: u64,
    r: Result<Option<V>, CodecError>,
) -> bool {
    match codec.key_bytes(key) {
        None => r is Err,
        Some(k) => match ttl::live(t, k, now) {
            Err(e) => r == Err::<Option<V>, CodecError>(CodecError::Storage(e)),
            Ok(stored) => typed::value_read(codec, stored, r),
        },
    }
}

/// Where a traversal that begins at a key starts: at the key, or past it, and
/// where there is none, at the first larger one.
pub open spec fn started(l: Seq<DataView>, key: Seq<u8>, exclusive: bool) -> CursorView {
    let (exists, at) = cursor::sought(l, key);
    let before = match cursor::current(l, at) {
        Some(data) => bytes::lex_lt(data.key(), key),
        None => false,
    };
    if (exists && exclusive) || (!exists && before) {
        cursor::advanced(l, at).1
    } else {
        at
    }
}

/// Places a cursor at the start of a traversal.
fn start<'a>(node: &'a Node, key: &[u8], exclusive: bool) -> (r: Cursor<'a>)
    requires
        node.wf(),
    ensures
        r.wf(),
        r.list() == cursor::data_in(node@),
        r.state() == started(cursor::data_in(node@), key@, exclusive),
        cursor::sound(r.list(), r.state()),
{
    let mut at: Cursor<'a> = Cursor::new(node);
    proof {
        crate::api::map::lemma_data_in_order(*node);
        lemma_sought_sound(cursor::data_in(node@), key@);
    }
    let exists: bool = at.seek(key);
    let before: bool = match at.current() {
        Some(data) => less(data.key(), key),
        None => false,
    };
    if (exists && exclusive) || (!exists && before) {
        let _passed: Option<Data<'a>> = at.next();
    }
    at
}

proof fn lemma_sought_sound(l: Seq<DataView>, key: Seq<u8>)
    requires
        cursor::in_order(l),
    ensures
        cursor::sound(l, cursor::sought(l, key).1),
{
    cursor::lemma_rank_bounds(l, key);
    if cursor::holds_key(l, key) {
        let i = choose|i: int| 0 <= i < l.len() && (#[trigger] l[i]).key() == key;
        bytes::lemma_lex_irreflexive(key);
        assert(cursor::rank(l, key) <= i);
    }
}

pub proof fn lemma_started_sound(l: Seq<DataView>, key: Seq<u8>, exclusive: bool)
    requires
        cursor::in_order(l),
    ensures
        cursor::sound(l, started(l, key, exclusive)),
{
    lemma_sought_sound(l, key);
}

/// A traversal that begins at a key comes upon every entry with that key or a
/// larger one, or with a larger one only, in key order.
pub proof fn law_traversal_starts_at_its_key(l: Seq<DataView>, key: Seq<u8>, exclusive: bool)
    requires
        cursor::in_order(l),
    ensures
        ({
            let rest = cursor::ahead(l, started(l, key, exclusive));
            let n = l.len() - rest.len();
            &&& 0 <= n <= l.len()
            &&& rest == l.skip(n)
            &&& forall|i: int|
                0 <= i < n ==> bytes::lex_lt((#[trigger] l[i]).key(), key) || (exclusive
                    && l[i].key() == key)
            &&& forall|i: int|
                n <= i < l.len() ==> bytes::lex_lt(key, (#[trigger] l[i]).key()) || (!exclusive
                    && l[i].key() == key)
        }),
{
    cursor::lemma_rank_bounds(l, key);
    let r = cursor::rank(l, key) as int;
    bytes::lemma_lex_irreflexive(key);
    if cursor::holds_key(l, key) {
        let j = choose|j: int| 0 <= j < l.len() && (#[trigger] l[j]).key() == key;
        assert(r <= j);
        if r < j {
            assert(bytes::lex_lt(l[r].key(), l[j].key()));
        }
        assert(l[r].key() == key);
        assert forall|i: int| r < i < l.len() implies bytes::lex_lt(
            key,
            (#[trigger] l[i]).key(),
        ) by {
            assert(bytes::lex_lt(l[r].key(), l[i].key()));
        }
        let n = if exclusive {
            r + 1
        } else {
            r
        };
        assert(cursor::ahead(l, started(l, key, exclusive)) =~= l.skip(n));
    } else {
        assert forall|i: int| r <= i < l.len() implies bytes::lex_lt(
            key,
            (#[trigger] l[i]).key(),
        ) by {
            bytes::lemma_lex_total(key, l[i].key());
        }
        if r > 0 {
            assert(bytes::lex_lt(l[r - 1].key(), key));
        }
        assert(cursor::ahead(l, started(l, key, exclusive)) =~= l.skip(r));
    }
}

/// Why a traversal was given up.
pub enum Stop {
    /// As many pairs as wanted were found.
    Full,
    /// There are no more.
    End,
    Fault(Error),
}

/// The pairs that a traversal finds, up to `n`.
pub open spec fn taken(
    l: Seq<DataView>,
    c: CursorView,
    q: Scan,
    table: Result<Option<Tree>, Error>,
    now: u64,
    n: nat,
) -> (Seq<(Seq<u8>, Seq<u8>)>, Stop, CursorView)
    decreases n,
{
    if n == 0 {
        (Seq::empty(), Stop::Full, c)
    } else {
        let (pairs, stop, at) = taken(l, c, q, table, now, (n - 1) as nat);
        match stop {
            Stop::Full => match iter::found(l, at, q, table, now) {
                (Found::End, at) => (pairs, Stop::End, at),
                (Found::Pair(key, value), at) => (pairs.push((key, value)), Stop::Full, at),
                (Found::Fault(e), at) => (pairs, Stop::Fault(e), at),
                (Found::Broken(e), at) => (pairs, Stop::Fault(e), at),
            },
            _ => (pairs, stop, at),
        }
    }
}

/// A traversal that was given up early comes to the same however many pairs
/// are wanted.
pub proof fn lemma_taken_stops(
    l: Seq<DataView>,
    c: CursorView,
    q: Scan,
    table: Result<Option<Tree>, Error>,
    now: u64,
    n: nat,
    m: nat,
)
    requires
        n <= m,
        taken(l, c, q, table, now, n).1 !is Full,
    ensures
        taken(l, c, q, table, now, m) == taken(l, c, q, table, now, n),
    decreases m,
{
    if n < m {
        lemma_taken_stops(l, c, q, table, now, n, (m - 1) as nat);
    }
}

/// A traversal that was not given up found as many pairs as wanted.
pub proof fn lemma_taken_full(
    l: Seq<DataView>,
    c: CursorView,
    q: Scan,
    table: Result<Option<Tree>, Error>,
    now: u64,
    n: nat,
)
    ensures
        taken(l, c, q, table, now, n).1 is Full ==> taken(l, c, q, table, now, n).0.len() == n,
        taken(l, c, q, table, now, n).0.len() <= n,
    decreases n,
{
    if n > 0 {
        lemma_taken_full(l, c, q, table, now, (n - 1) as nat);
    }
}

/// The pairs found first are found first however many are wanted.
pub proof fn lemma_taken_begins(
    l: Seq<DataView>,
    c: CursorView,
    q: Scan,
    table: Result<Option<Tree>, Error>,
    now: u64,
    n: nat,
    m: nat,
)
    requires
        n <= m,
    ensures
        taken(l, c, q, table, now, n).0.is_prefix_of(taken(l, c, q, table, now, m).0),
    decreases m,
{
    if n < m {
        lemma_taken_begins(l, c, q, table, now, n, (m - 1) as nat);
        let a = taken(l, c, q, table, now, n).0;
        let b = taken(l, c, q, table, now, (m - 1) as nat).0;
        let z = taken(l, c, q, table, now, m).0;
        assert(b.is_prefix_of(z));
        assert(a =~= z.take(a.len() as int));
    } else {
        let a = taken(l, c, q, table, now, n).0;
        assert(a =~= a.take(a.len() as int));
    }
}

/// Whether a result is the one entry that was found.
pub open spec fn one_read<K, V, C: KeyCodec<K> + ValueCodec<V>>(
    codec: C,
    next: Found,
    r: Result<Option<(K, V)>, CodecError>,
) -> bool {
    match next {
        Found::End => r is Ok && r->Ok_0 is None,
        Found::Pair(key, value) => match r {
            Ok(Some(entry)) => iter::pair_read(codec, (key, value), Ok(entry)),
            Ok(None) => false,
            Err(_) => typed::unreadable::<K, V, C>(codec, (key, value)),
        },
        Found::Fault(e) => r == Err::<Option<(K, V)>, CodecError>(CodecError::Storage(e)),
        Found::Broken(e) => r == Err::<Option<(K, V)>, CodecError>(CodecError::Storage(e)),
    }
}

fn transposed<K, V>(next: Option<Result<(K, V), CodecError>>) -> (r: Result<
    Option<(K, V)>,
    CodecError,
>)
    ensures
        match next {
            None => r is Ok && r->Ok_0 is None,
            Some(Ok(entry)) => r == Ok::<Option<(K, V)>, CodecError>(Some(entry)),
            Some(Err(e)) => r == Err::<Option<(K, V)>, CodecError>(e),
        },
{
    match next {
        None => Ok(None),
        Some(Ok(entry)) => Ok(Some(entry)),
        Some(Err(e)) => Err(e),
    }
}

/// A traversal of everything, toward smaller keys.
pub open spec fn everything_back() -> Scan {
    Scan { prefix: None, lower: None, upper: None, reverse: true }
}

/// Where a traversal toward smaller keys starts.
pub open spec fn at_last(l: Seq<DataView>) -> CursorView {
    if l.len() == 0 {
        cursor::unplaced()
    } else {
        cursor::placed(l.len() - 1)
    }
}

/// Whether a pair is among some.
pub open spec fn one_unreadable<K, V, C: KeyCodec<K> + ValueCodec<V>>(
    codec: C,
    pairs: Seq<(Seq<u8>, Seq<u8>)>,
) -> bool {
    exists|i: int| 0 <= i < pairs.len() && typed::unreadable::<K, V, C>(codec, #[trigger] pairs[i])
}

/// Where a page starts.
pub open spec fn page_start(l: Seq<DataView>, after: Option<PageToken>) -> CursorView {
    match after {
        Some(token) => started(l, token.key@, true),
        None => cursor::unplaced(),
    }
}

/// Whether a key that is read from bytes has no bytes.
pub open spec fn unwritable<K, C: KeyCodec<K>>(codec: C, s: Seq<u8>) -> bool {
    exists|key: K| #[trigger] codec.reads_key(s, key) && codec.key_bytes(key) is None
}

/// Whether a result is a page: as many pairs as there are, up to the limit,
/// and where to go on if there are more.
pub open spec fn page_read<K, V, C: KeyCodec<K> + ValueCodec<V>>(
    codec: C,
    t: Tree,
    after: Option<PageToken>,
    limit: nat,
    now: u64,
    r: Result<ScanPage<K, V>, CodecError>,
) -> bool {
    let l = cursor::data_in(t);
    let table = iter::table_of(t);
    let (pairs, stop, at) = taken(
        l,
        page_start(l, after),
        iter::everything(),
        table,
        now,
        limit,
    );
    let next = match stop {
        Stop::Full => iter::found(l, at, iter::everything(), table, now).0,
        _ => Found::End,
    };
    match r {
        Ok(page) => {
            &&& stop !is Fault
            &&& typed::entries_read(codec, pairs, page.items@)
            &&& match page.next {
                None => next is End,
                Some(token) => next is Pair && codec.key_bytes(page.items@.last().0) == Some(
                    token.key@,
                ),
            }
        },
        Err(_) => {
            ||| stop is Fault
            ||| one_unreadable::<K, V, C>(codec, pairs)
            ||| next is Fault
            ||| next is Broken
            ||| (next matches Found::Pair(key, value) && typed::unreadable::<K, V, C>(
                codec,
                (key, value),
            ))
            ||| (next is Pair && unwritable::<K, C>(codec, pairs.last().0))
        },
    }
}

/// Whether looking a key up gives no error.
pub open spec fn gettable<K, V, C: KeyCodec<K> + ValueCodec<V>>(
    codec: C,
    t: Tree,
    key: K,
    now: u64,
) -> bool {
    exists|value: Option<V>| #[trigger]
        got(codec, t, key, now, Ok::<Option<V>, CodecError>(value))
}

impl<'a, K, V, C: KeyCodec<K> + ValueCodec<V>> ReadCollection<'a, K, V, C> {
    /// Whether the collection is in order.
    pub open spec fn wf(&self) -> bool {
        self.node.wf()
    }

    /// The collection's entries as data.
    pub open spec fn list(&self) -> Seq<DataView> {
        cursor::data_in(self.node@)
    }

    /// The value under a key that has not expired at `now`.
    pub fn get(&self, key: &K, now: u64) -> (r: Result<Option<V>, CodecError>)
        requires
            self.wf(),
        ensures
            got(*self.codec, self.node@, *key, now, r),
    {
        let k: Vec<u8> = match self.codec.encode_key(key) {
            Ok(k) => k,
            Err(e) => return Err(e),
        };
        match live_value(self.node, &k, now) {
            Err(e) => Err(CodecError::Storage(e)),
            Ok(stored) => read_value(self.codec, stored),
        }
    }

    /// The value under a key, as `get` has it.
    pub fn get_owned(&self, key: &K, now: u64) -> (r: Result<Option<V>, CodecError>)
        requires
            self.wf(),
        ensures
            got(*self.codec, self.node@, *key, now, r),
    {
        self.get(key, now)
    }

    /// Whether there is a live value under a key.
    pub fn contains_key(&self, key: &K, now: u64) -> (r: Result<bool, CodecError>)
        requires
            self.wf(),
        ensures
            match r {
                Ok(true) => exists|value: V|
                    #[trigger] got(
                        *self.codec,
                        self.node@,
                        *key,
                        now,
                        Ok::<Option<V>, CodecError>(Some(value)),
                    ),
                Ok(false) => got(
                    *self.codec,
                    self.node@,
                    *key,
                    now,
                    Ok::<Option<V>, CodecError>(None),
                ),
                Err(e) => got(
                    *self.codec,
                    self.node@,
                    *key,
                    now,
                    Err::<Option<V>, CodecError>(e),
                ),
            },
    {
        match self.get(key, now) {
            Ok(Some(_)) => Ok(true),
            Ok(None) => Ok(false),
            Err(e) => Err(e),
        }
    }

    /// The live values under several keys, or the error of the first key that
    /// gives one.
    pub fn multi_get(&self, keys: &Vec<K>, now: u64) -> (r: Result<Vec<Option<V>>, CodecError>)
        requires
            self.wf(),
        ensures
            match r {
                Ok(values) => values@.len() == keys@.len() && forall|i: int|
                    0 <= i < keys@.len() ==> got(
                        *self.codec,
                        self.node@,
                        #[trigger] keys@[i],
                        now,
                        Ok::<Option<V>, CodecError>(values@[i]),
                    ),
                Err(e) => exists|i: int|
                    0 <= i < keys@.len() && got(
                        *self.codec,
                        self.node@,
                        #[trigger] keys@[i],
                        now,
                        Err::<Option<V>, CodecError>(e),
                    ) && forall|j: int|
                        0 <= j < i ==> gettable::<K, V, C>(
                            *self.codec,
                            self.node@,
                            #[trigger] keys@[j],
                            now,
                        ),
            },
    {
        let mut out: Vec<Option<V>> = Vec::new();
        let mut i: usize = 0;
        while i < keys.len()
            invariant
                self.wf(),
                i <= keys@.len(),
                out@.len() == i,
                forall|j: int|
                    0 <= j < i ==> got(
                        *self.codec,
                        self.node@,
                        #[trigger] keys@[j],
                        now,
                        Ok::<Option<V>, CodecError>(out@[j]),
                    ),
            decreases keys@.len() - i,
        {
            match self.get(&keys[i], now) {
                Ok(value) => out.push(value),
                Err(e) => {
                    assert(got(
                        *self.codec,
                        self.node@,
                        keys@[i as int],
                        now,
                        Err::<Option<V>, CodecError>(e),
                    ));
                    return Err(e);
                },
            }
            i = i + 1;
        }
        Ok(out)
    }

    fn traversal(
        &self,
        at: Cursor<'a>,
        prefix: Option<Vec<u8>>,
        upper_bound: Option<(Vec<u8>, bool)>,
        reverse: bool,
    ) -> (r: CollectionIter<'a, K, V, C>)
        requires
            self.wf(),
            at.wf(),
            cursor::sound(at.list(), at.state()),
        ensures
            r.wf(),
            r.cursor == at,
            r.table() == iter::table_of(self.node@),
            r.codec == self.codec,
            r.remaining is None,
            r.scan() == (Scan {
                prefix: tree::seen(prefix),
                lower: None,
                upper: iter::bound_view(upper_bound),
                reverse,
            }),
    {
        CollectionIter {
            cursor: at,
            expirations: expiration_bucket(self.node),
            codec: self.codec,
            remaining: None,
            prefix,
            lower_bound: None,
            upper_bound,
            reverse,
            marker: PhantomData,
        }
    }

    /// Every live entry, toward larger keys.
    pub fn iter(&self) -> (r: CollectionIter<'a, K, V, C>)
        requires
            self.wf(),
        ensures
            r.wf(),
            r.cursor.list() == self.list(),
            r.cursor.state() == cursor::unplaced(),
            r.table() == iter::table_of(self.node@),
            r.codec == self.codec,
            r.remaining is None,
            r.scan() == iter::everything(),
    {
        self.traversal(Cursor::new(self.node), None, None, false)
    }

    /// Every live entry, toward smaller keys.
    pub fn iter_rev(&self) -> (r: CollectionIter<'a, K, V, C>)
        requires
            self.wf(),
        ensures
            r.wf(),
            r.cursor.list() == self.list(),
            r.cursor.state() == at_last(self.list()),
            r.table() == iter::table_of(self.node@),
            r.codec == self.codec,
            r.remaining is None,
            r.scan() == everything_back(),
    {
        let mut at: Cursor<'a> = Cursor::new(self.node);
        at.seek_last();
        self.traversal(at, None, None, true)
    }

    /// Every live entry whose key begins with a prefix, toward larger keys.
    pub fn prefix(&self, prefix: &[u8]) -> (r: CollectionIter<'a, K, V, C>)
        requires
            self.wf(),
        ensures
            r.wf(),
            r.cursor.list() == self.list(),
            r.cursor.state() == started(self.list(), prefix@, false),
            r.table() == iter::table_of(self.node@),
            r.codec == self.codec,
            r.remaining is None,
            r.scan() == (Scan { prefix: Some(prefix@), ..iter::everything() }),
    {
        self.traversal(start(self.node, prefix, false), Some(owned(prefix)), None, false)
    }

    /// Every live entry from a key on, toward larger keys.
    pub fn seek(&self, key: &K) -> (r: Result<CollectionIter<'a, K, V, C>, CodecError>)
        requires
            self.wf(),
        ensures
            if !C::ORDER_PRESERVING {
                r is Err && r->Err_0 is OrderingRequired
            } else {
                match (r, self.codec.key_bytes(*key)) {
                    (Ok(it), Some(k)) => {
                        &&& it.wf()
                        &&& it.cursor.list() == self.list()
                        &&& it.cursor.state() == started(self.list(), k, false)
                        &&& it.table() == iter::table_of(self.node@)
                        &&& it.codec == self.codec
                        &&& it.remaining is None
                        &&& it.scan() == iter::everything()
                    },
                    (Err(_), None) => true,
                    _ => false,
                }
            },
    {
        if !C::ORDER_PRESERVING {
            return Err(CodecError::OrderingRequired);
        }
        let k: Vec<u8> = match self.codec.encode_key(key) {
            Ok(k) => k,
            Err(e) => return Err(e),
        };
        Ok(self.traversal(start(self.node, &k, false), None, None, false))
    }

    /// Every live entry from a key on and before another, toward larger keys.
    pub fn range(&self, first: &K, end_exclusive: &K) -> (r: Result<
        CollectionIter<'a, K, V, C>,
        CodecError,
    >)
        requires
            self.wf(),
        ensures
            if !C::ORDER_PRESERVING {
                r is Err && r->Err_0 is OrderingRequired
            } else {
                match (
                    r,
                    self.codec.key_bytes(*first),
                    self.codec.key_bytes(*end_exclusive),
                ) {
                    (Ok(it), Some(a), Some(b)) => {
                        &&& it.wf()
                        &&& it.cursor.list() == self.list()
                        &&& it.cursor.state() == started(self.list(), a, false)
                        &&& it.table() == iter::table_of(self.node@)
                        &&& it.codec == self.codec
                        &&& it.remaining is None
                        &&& it.scan() == (Scan { upper: Some((b, false)), ..iter::everything() })
                    },
                    (Ok(_), _, _) => false,
                    (Err(_), a, b) => a is None || b is None,
                }
            },
    {
        if !C::ORDER_PRESERVING {
            return Err(CodecError::OrderingRequired);
        }
        let a: Vec<u8> = match self.codec.encode_key(first) {
            Ok(a) => a,
            Err(e) => return Err(e),
        };
        let b: Vec<u8> = match self.codec.encode_key(end_exclusive) {
            Ok(b) => b,
            Err(e) => return Err(e),
        };
        Ok(self.traversal(start(self.node, &a, false), None, Some((b, false)), false))
    }

    /// Returns a bounded page. `after` is exclusive and can be passed from the
    /// prior page without decoding or retaining database-backed memory.
    pub fn page_after(&self, after: Option<&PageToken>, limit: usize, now: u64) -> (r: Result<
        ScanPage<K, V>,
        CodecError,
    >)
        requires
            self.wf(),
        ensures
            if !C::ORDER_PRESERVING {
                r is Err && r->Err_0 is OrderingRequired
            } else if limit == 0 {
                r matches Ok(page) && page.items@.len() == 0 && page.next is None
            } else {
                page_read(
                    *self.codec,
                    self.node@,
                    match after {
                        Some(token) => Some(*token),
                        None => None,
                    },
                    limit as nat,
                    now,
                    r,
                )
            },
    {
        if !C::ORDER_PRESERVING {
            return Err(CodecError::OrderingRequired);
        }
        let mut items: Vec<(K, V)> = Vec::new();
        if limit == 0 {
            return Ok(ScanPage { items, next: None });
        }
        let mut it: CollectionIter<'a, K, V, C> = match after {
            Some(token) => self.traversal(
                start(self.node, token.as_bytes(), true),
                None,
                None,
                false,
            ),
            None => self.iter(),
        };
        let ghost l = self.list();
        let ghost c = it.cursor.state();
        let ghost q = iter::everything();
        let ghost table = iter::table_of(self.node@);
        let ghost n = limit as nat;
        let mut done: bool = false;
        while items.len() < limit && !done
            invariant
                self.wf(),
                it.wf(),
                it.cursor.list() == l,
                it.scan() == q,
                it.codec == self.codec,
                it.remaining is None,
                it.table() == table,
                n == limit,
                limit > 0,
                C::ORDER_PRESERVING,
                l == self.list(),
                q == iter::everything(),
                table == iter::table_of(self.node@),
                c == page_start(
                    l,
                    match after {
                        Some(token) => Some(*token),
                        None => None,
                    },
                ),
                items@.len() <= n,
                ({
                    let (pairs, stop, at) = taken(l, c, q, table, now, items@.len());
                    &&& typed::entries_read(*self.codec, pairs, items@)
                    &&& stop is Full
                    &&& !done ==> at == it.cursor.state()
                    &&& done ==> {
                        &&& items@.len() < n
                        &&& iter::found(l, at, q, table, now).0 is End
                        &&& iter::found(l, at, q, table, now).1 == it.cursor.state()
                    }
                }),
            decreases n - items@.len(), if done { 0nat } else { 1nat },
        {
            let ghost k = items@.len();
            let ghost was = items@;
            let ghost (pairs, stop, at) = taken(l, c, q, table, now, k);
            let ghost before = it;
            proof {
                lemma_taken_full(l, c, q, table, now, k);
                lemma_taken_full(l, c, q, table, now, k + 1);
            }
            match it.next(now) {
                None => {
                    done = true;
                },
                Some(Err(e)) => {
                    proof {
                        let upto = taken(l, c, q, table, now, k + 1);
                        match iter::found(l, at, q, table, now).0 {
                            Found::Pair(key, value) => {
                                lemma_taken_begins(l, c, q, table, now, k + 1, n);
                                let all = taken(l, c, q, table, now, n).0;
                                assert(upto.0[k as int] == (key, value));
                                assert(all[k as int] == upto.0[k as int]);
                                assert(one_unreadable::<K, V, C>(*self.codec, all));
                            },
                            _ => {
                                lemma_taken_stops(l, c, q, table, now, k + 1, n);
                            },
                        }
                    }
                    return Err(e);
                },
                Some(Ok(entry)) => {
                    items.push(entry);
                    proof {
                        let upto = taken(l, c, q, table, now, k + 1);
                        assert(typed::entries_read(*self.codec, upto.0, items@)) by {
                            assert forall|j: int| 0 <= j < upto.0.len() implies self.codec.reads_key(
                                upto.0[j].0,
                                (#[trigger] items@[j]).0,
                            ) && self.codec.reads_value(upto.0[j].1, items@[j].1) by {
                                if j < k {
                                    assert(items@[j] == was[j]);
                                    assert(upto.0[j] == pairs[j]);
                                }
                            }
                        }
                    }
                },
            }
        }
        let ghost k = items@.len();
        let ghost (pairs, stop, at) = taken(l, c, q, table, now, k);
        proof {
            lemma_taken_full(l, c, q, table, now, k);
            if done {
                assert(taken(l, c, q, table, now, k + 1).1 is End);
                assert(taken(l, c, q, table, now, k + 1).0 == pairs);
                lemma_taken_stops(l, c, q, table, now, k + 1, n);
            }
        }
        if done {
            return Ok(ScanPage { items, next: None });
        }
        match it.next(now) {
            None => Ok(ScanPage { items, next: None }),
            Some(Err(e)) => Err(e),
            Some(Ok(_)) => {
                let last: &(K, V) = &items[items.len() - 1];
                proof {
                    assert(items@.last() == items@[k - 1]);
                    assert(self.codec.reads_key(pairs[k - 1].0, items@[k - 1].0));
                }
                match self.codec.encode_key(&last.0) {
                    Ok(key) => Ok(ScanPage { items, next: Some(PageToken { key }) }),
                    Err(e) => Err(e),
                }
            },
        }
    }

    /// The first live entry.
    pub fn first(&self, now: u64) -> (r: Result<Option<(K, V)>, CodecError>)
        requires
            self.wf(),
        ensures
            one_read(
                *self.codec,
                iter::found(
                    self.list(),
                    cursor::unplaced(),
                    iter::everything(),
                    iter::table_of(self.node@),
                    now,
                ).0,
                r,
            ),
    {
        let mut it: CollectionIter<'a, K, V, C> = self.iter();
        transposed(it.next(now))
    }

    /// The last live entry.
    pub fn last(&self, now: u64) -> (r: Result<Option<(K, V)>, CodecError>)
        requires
            self.wf(),
        ensures
            one_read(
                *self.codec,
                iter::found(
                    self.list(),
                    at_last(self.list()),
                    everything_back(),
                    iter::table_of(self.node@),
                    now,
                ).0,
                r,
            ),
    {
        let mut it: CollectionIter<'a, K, V, C> = self.iter_rev();
        transposed(it.next(now))
    }

    /// How many pairs are stored, expired or not.
    pub fn len(&self) -> (r: usize)
        requires
            self.wf(),
        ensures
            r == crate::api::map::picked(self.list(), Keys::All).len(),
    {
        let keys: Vec<Vec<u8>> = pick(self.node, &Keys::All);
        assert(crate::api::changes::path_view(keys@).len() == keys@.len());
        keys.len()
    }

    /// Whether no pair is stored.
    pub fn is_empty(&self) -> (r: bool)
        requires
            self.wf(),
        ensures
            r == (crate::api::map::picked(self.list(), Keys::All).len() == 0),
    {
        self.len() == 0
    }
}

} // verus!
