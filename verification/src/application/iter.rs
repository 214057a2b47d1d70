//! Moving over the live entries of a typed collection.

use crate::api::cursor::{self, Cursor, CursorView};
use crate::api::tree::{self, Node, Tree};
use crate::api::ttl::{self, decode_expiration};
use crate::bytes::{self, less, same, starts_with};
use crate::data::{Data, DataView, KVPair};
use crate::error::Error;
use crate::typed::{self, CodecError, KeyCodec, ValueCodec};
use std::marker::PhantomData;
use vstd::prelude::*;

verus! {

/// Opaque exclusive continuation point for a collection page.
#[derive(Clone, Debug, PartialEq, Eq)]
pub struct PageToken {
    pub key: Vec<u8>,
}

impl PageToken {
    /// The continuation point as bytes.
    pub fn as_bytes(&self) -> (r: &[u8])
        ensures
            r@ == self.key@,
    {
        self.key.as_slice()
    }
}

/// One bounded page and the token needed to resume after it.
#[derive(Clone, Debug, PartialEq, Eq)]
pub struct ScanPage<K, V> {
    pub items: Vec<(K, V)>,
    pub next: Option<PageToken>,
}

/// What a traversal keeps to.
pub struct Scan {
    pub prefix: Option<Seq<u8>>,
    pub lower: Option<(Seq<u8>, bool)>,
    pub upper: Option<(Seq<u8>, bool)>,
    pub reverse: bool,
}

/// A traversal of everything, toward larger keys.
pub open spec fn everything() -> Scan {
    Scan { prefix: None, lower: None, upper: None, reverse: false }
}

/// Whether a traversal ends before a key.
pub open spec fn beyond(q: Scan, key: Seq<u8>) -> bool {
    ||| (q.prefix matches Some(prefix) && !prefix.is_prefix_of(key))
    ||| (q.reverse && (q.lower matches Some((start, inclusive)) && (bytes::lex_lt(key, start) || (
    !inclusive && key == start))))
    ||| (!q.reverse && (q.upper matches Some((end, inclusive)) && (bytes::lex_lt(end, key) || (
    !inclusive && key == end))))
}

/// What a traversal comes upon next.
pub enum Found {
    /// Nothing.
    End,
    Pair(Seq<u8>, Seq<u8>),
    /// When the next pair expires cannot be told.
    Fault(Error),
    /// Nobody can tell when pairs expire.
    Broken(Error),
}

/// Whether a key has not expired, by a table of deadlines.
pub open spec fn lives(table: Tree, key: Seq<u8>, now: u64) -> Result<bool, Error> {
    match tree::value_of(table, key) {
        None => Ok(true),
        Some(value) => match ttl::deadline_of(value) {
            Ok(deadline) => Ok(deadline > now),
            Err(e) => Err(e),
        },
    }
}

/// Moving a cursor on or back.
pub open spec fn moved(l: Seq<DataView>, c: CursorView, reverse: bool) -> (
    Option<DataView>,
    CursorView,
) {
    if reverse {
        cursor::retreated(l, c)
    } else {
        cursor::advanced(l, c)
    }
}

/// How many entries a cursor has left in one direction.
pub open spec fn left(l: Seq<DataView>, c: CursorView, reverse: bool) -> nat {
    if reverse {
        cursor::behind(l, c).len()
    } else {
        cursor::ahead(l, c).len()
    }
}

/// A cursor that came upon an entry has fewer left.
pub proof fn lemma_moved(l: Seq<DataView>, c: CursorView, reverse: bool)
    requires
        cursor::sound(l, c),
    ensures
        cursor::sound(l, moved(l, c, reverse).1),
        moved(l, c, reverse).0 is Some ==> left(l, moved(l, c, reverse).1, reverse) < left(
            l,
            c,
            reverse,
        ),
{
    if l.len() > 0 {
        if reverse {
            cursor::law_cursor_returns_what_is_behind(l, c);
        } else {
            cursor::law_cursor_returns_what_is_ahead(l, c);
        }
    }
}

/// What a traversal comes upon next, and where it is then: buckets and expired
/// pairs are passed over.
pub open spec fn found(
    l: Seq<DataView>,
    c: CursorView,
    q: Scan,
    table: Result<Option<Tree>, Error>,
    now: u64,
) -> (Found, CursorView)
    decreases left(l, c, q.reverse),
    when cursor::sound(l, c)
{
    proof {
        lemma_moved(l, c, q.reverse);
    }
    let (data, after) = moved(l, c, q.reverse);
    match data {
        None => (Found::End, after),
        Some(DataView::Bucket(_)) => found(l, after, q, table, now),
        Some(DataView::KeyValue(key, value)) => if beyond(q, key) {
            (Found::End, after)
        } else {
            match table {
                Err(e) => (Found::Broken(e), after),
                Ok(None) => (Found::Pair(key, value), after),
                Ok(Some(t)) => match lives(t, key, now) {
                    Err(e) => (Found::Fault(e), after),
                    Ok(true) => (Found::Pair(key, value), after),
                    Ok(false) => found(l, after, q, table, now),
                },
            }
        },
    }
}

/// Whether a result is what a pair is read as.
pub open spec fn pair_read<K, V, C: KeyCodec<K> + ValueCodec<V>>(
    codec: C,
    pair: (Seq<u8>, Seq<u8>),
    r: Result<(K, V), CodecError>,
) -> bool {
    match r {
        Ok((key, value)) => codec.reads_key(pair.0, key) && codec.reads_value(pair.1, value),
        Err(_) => typed::unreadable::<K, V, C>(codec, pair),
    }
}

/// Where a table of deadlines is, if there is one.
pub open spec fn table_of(t: Tree) -> Result<Option<Tree>, Error> {
    match tree::child_of(t, crate::api::names::ttl_name()) {
        Ok(table) => Ok(Some(table)),
        Err(e) => if e == Error::BucketMissing {
            Ok(None)
        } else {
            Err(e)
        },
    }
}

/// Finds the table of deadlines, if there is one.
pub fn expiration_bucket(node: &Node) -> (r: Result<Option<&Node>, Error>)
    requires
        node.wf(),
    ensures
        match (r, table_of(node@)) {
            (Ok(Some(table)), Ok(Some(t))) => table.wf() && table@ == t,
            (Ok(None), Ok(None)) => true,
            (Err(e), Err(f)) => e == f,
            _ => false,
        },
{
    match node.child(&crate::api::names::ttl_bucket()) {
        Ok(table) => Ok(Some(table)),
        Err(Error::BucketMissing) => Ok(None),
        Err(e) => Err(e),
    }
}

/// Whether a key has not expired, by a table of deadlines.
pub fn key_is_live(table: &Node, key: &[u8], now: u64) -> (r: Result<bool, Error>)
    requires
        table.wf(),
    ensures
        r == lives(table@, key@, now),
{
    match table.get_kv(key) {
        None => Ok(true),
        Some(value) => match decode_expiration(value) {
            Ok(deadline) => Ok(deadline > now),
            Err(e) => Err(e),
        },
    }
}

/// Lazy, allocation-bounded typed traversal of a collection.
pub struct CollectionIter<'a, K, V, C> {
    pub cursor: Cursor<'a>,
    pub expirations: Result<Option<&'a Node>, Error>,
    pub codec: &'a C,
    pub remaining: Option<usize>,
    pub prefix: Option<Vec<u8>>,
    pub lower_bound: Option<(Vec<u8>, bool)>,
    pub upper_bound: Option<(Vec<u8>, bool)>,
    pub reverse: bool,
    pub marker: PhantomData<(K, V)>,
}

/// A bound by what it holds.
pub open spec fn bound_view(bound: Option<(Vec<u8>, bool)>) -> Option<(Seq<u8>, bool)> {
    match bound {
        Some((key, inclusive)) => Some((key@, inclusive)),
        None => None,
    }
}

impl<'a, K, V, C> CollectionIter<'a, K, V, C> {
    /// Whether the traversal is in order.
    pub open spec fn wf(&self) -> bool {
        &&& self.cursor.wf()
        &&& cursor::sound(self.cursor.list(), self.cursor.state())
        &&& self.expirations matches Ok(Some(table)) ==> table.wf()
    }

    /// What the traversal keeps to.
    pub open spec fn scan(&self) -> Scan {
        Scan {
            prefix: tree::seen(self.prefix),
            lower: bound_view(self.lower_bound),
            upper: bound_view(self.upper_bound),
            reverse: self.reverse,
        }
    }

    /// The deadlines of the traversal's pairs.
    pub open spec fn table(&self) -> Result<Option<Tree>, Error> {
        match self.expirations {
            Ok(Some(table)) => Ok(Some(table@)),
            Ok(None) => Ok(None),
            Err(e) => Err(e),
        }
    }

    /// What the traversal comes upon next.
    pub open spec fn upcoming(&self, now: u64) -> (Found, CursorView) {
        found(self.cursor.list(), self.cursor.state(), self.scan(), self.table(), now)
    }

    /// Bounds the number of decoded records produced by this scan.
    pub fn take_records(self, limit: usize) -> (r: Self)
        ensures
            r == (CollectionIter { remaining: Some(limit), ..self }),
    {
        CollectionIter { remaining: Some(limit), ..self }
    }

    /// Whether the traversal ends before a key.
    fn stops_at(&self, key: &[u8]) -> (r: bool)
        ensures
            r == beyond(self.scan(), key@),
    {
        match &self.prefix {
            Some(prefix) => if !starts_with(key, prefix) {
                return true;
            },
            None => {},
        }
        if self.reverse {
            match &self.lower_bound {
                Some((start, inclusive)) => less(key, start) || (!*inclusive && same(key, start)),
                None => false,
            }
        } else {
            match &self.upper_bound {
                Some((end, inclusive)) => less(end, key) || (!*inclusive && same(key, end)),
                None => false,
            }
        }
    }
}

impl<'a, K, V, C: KeyCodec<K> + ValueCodec<V>> CollectionIter<'a, K, V, C> {
    /// Whether a result, and the traversal after it, are those of a step.
    pub open spec fn stepped(
        before: Self,
        after: Self,
        now: u64,
        r: Option<Result<(K, V), CodecError>>,
    ) -> bool {
        &&& after.wf()
        &&& after.cursor.list() == before.cursor.list()
        &&& after.codec == before.codec
        &&& after.prefix == before.prefix
        &&& after.lower_bound == before.lower_bound
        &&& after.upper_bound == before.upper_bound
        &&& after.reverse == before.reverse
        &&& if before.remaining == Some(0usize) {
            r is None && after == before
        } else {
            let (next, c) = before.upcoming(now);
            &&& after.cursor.state() == c
            &&& match next {
                Found::End => r is None && after.remaining == before.remaining
                    && after.expirations == before.expirations,
                Found::Pair(key, value) => {
                    &&& r is Some
                    &&& pair_read(*before.codec, (key, value), r->Some_0)
                    &&& after.expirations == before.expirations
                    &&& match before.remaining {
                        Some(n) => after.remaining == Some((n - 1) as usize),
                        None => after.remaining is None,
                    }
                },
                Found::Fault(e) => r == Some(Err::<(K, V), CodecError>(CodecError::Storage(e)))
                    && after.remaining == before.remaining && after.expirations
                    == before.expirations,
                Found::Broken(e) => r == Some(Err::<(K, V), CodecError>(CodecError::Storage(e)))
                    && after.remaining == Some(0usize) && after.table() == Ok::<
                    Option<Tree>,
                    Error,
                >(None),
            }
        }
    }

    /// Reads a pair.
    fn read_pair(&self, pair: KVPair<'a>) -> (r: Result<(K, V), CodecError>)
        ensures
            pair_read(*self.codec, pair@, r),
    {
        let key: K = match self.codec.decode_key(pair.key()) {
            Ok(key) => key,
            Err(e) => return Err(e),
        };
        let value: V = match self.codec.decode_value(pair.value()) {
            Ok(value) => value,
            Err(e) => return Err(e),
        };
        Ok((key, value))
    }

    /// The next live entry at `now`.
    pub fn next(&mut self, now: u64) -> (r: Option<Result<(K, V), CodecError>>)
        requires
            old(self).wf(),
        ensures
            Self::stepped(*old(self), *final(self), now, r),
    {
        if self.remaining.is_some() && self.remaining.unwrap() == 0 {
            return None;
        }
        let ghost want = self.upcoming(now);
        loop
            invariant
                self.wf(),
                self.cursor.list() == old(self).cursor.list(),
                self.codec == old(self).codec,
                self.prefix == old(self).prefix,
                self.lower_bound == old(self).lower_bound,
                self.upper_bound == old(self).upper_bound,
                self.reverse == old(self).reverse,
                self.remaining == old(self).remaining,
                self.remaining != Some(0usize),
                self.expirations == old(self).expirations,
                want == old(self).upcoming(now),
                want == self.upcoming(now),
            decreases left(self.cursor.list(), self.cursor.state(), self.reverse),
        {
            proof {
                lemma_moved(self.cursor.list(), self.cursor.state(), self.reverse);
            }
            let next: Option<Data<'a>> = if self.reverse {
                self.cursor.previous()
            } else {
                self.cursor.next()
            };
            let pair: KVPair<'a> = match next {
                None => return None,
                Some(Data::Bucket(_)) => continue,
                Some(Data::KeyValue(pair)) => pair,
            };
            if self.stops_at(pair.key()) {
                return None;
            }
            let mut broken: bool = false;
            let live: bool = match &self.expirations {
                Ok(Some(table)) => match key_is_live(table, pair.key(), now) {
                    Ok(live) => live,
                    Err(e) => return Some(Err(CodecError::Storage(e))),
                },
                Ok(None) => true,
                Err(_) => {
                    broken = true;
                    false
                },
            };
            if broken {
                let mut taken: Result<Option<&'a Node>, Error> = Ok(None);
                std::mem::swap(&mut taken, &mut self.expirations);
                self.remaining = Some(0);
                match taken {
                    Err(e) => return Some(Err(CodecError::Storage(e))),
                    Ok(_) => return None,
                }
            }
            if !live {
                continue;
            }
            match self.remaining {
                Some(n) => {
                    self.remaining = Some(n - 1);
                },
                None => {},
            }
            return Some(self.read_pair(pair));
        }
    }
}

} // verus!
