//! Typed keys and values on top of byte strings.

use crate::api::bucket::{self, Bucket};
use crate::api::cursor;
use crate::api::scoped::TransactionError;
use crate::api::tree::{self, Leaf, Node};
use crate::bytes::{self, less};
use crate::data::DataView;
use crate::error::{self, Error};
use std::marker::PhantomData;
use vstd::prelude::*;
use vstd::string::StringExecFns;

pub mod codecs;
pub mod laws;

verus! {

/// Structured storage and codec failures from typed access.
#[derive(Debug)]
pub enum CodecError {
    Storage(Error),
    Encode(String),
    Decode(String),
    OrderingRequired,
    InputNotOrdered,
    InvalidDefinition,
    SchemaMissing { collection: &'static str },
    SchemaMismatch {
        collection: &'static str,
        expected_id: &'static str,
        expected_version: u32,
    },
}

/// A text between quotation marks, with escapes, as the `Debug` form of `str`
/// has it.
pub uninterp spec fn quoted(s: Seq<char>) -> Seq<char>;

/// The `Debug` form of a text.
///
/// This is `format!` with `{:?}` on a `str`. The result is only given a name:
/// which characters are escaped, and how, is left to the standard library.
#[verifier::external_body]
fn quote(s: &str) -> (r: String)
    ensures
        r@ == quoted(s@),
{
    format!("{s:?}")
}

/// An error in words.
pub open spec fn codec_message(e: CodecError) -> Seq<char> {
    match e {
        CodecError::Storage(error) => "storage error: "@ + error::message_of(error),
        CodecError::Encode(text) => "encode error: "@ + text@,
        CodecError::Decode(text) => "decode error: "@ + text@,
        CodecError::OrderingRequired => "key codec does not preserve byte ordering"@,
        CodecError::InputNotOrdered => "input is not strictly ordered"@,
        CodecError::InvalidDefinition => "invalid collection definition"@,
        CodecError::SchemaMissing { collection } => "collection "@ + quoted(collection@)
            + " has no schema metadata"@,
        CodecError::SchemaMismatch { collection, expected_id, expected_version } => "collection "@
            + quoted(collection@) + " does not match schema "@ + quoted(expected_id@) + " version "@
            + error::decimal(expected_version as nat),
    }
}

impl CodecError {
    /// The error in words.
    pub fn message(&self) -> (r: String)
        ensures
            r@ == codec_message(*self),
    {
        match self {
            CodecError::Storage(error) => {
                let mut r: String = String::from_str("storage error: ");
                r.append(error.message().as_str());
                r
            },
            CodecError::Encode(text) => {
                let mut r: String = String::from_str("encode error: ");
                r.append(text.as_str());
                r
            },
            CodecError::Decode(text) => {
                let mut r: String = String::from_str("decode error: ");
                r.append(text.as_str());
                r
            },
            CodecError::OrderingRequired => String::from_str(
                "key codec does not preserve byte ordering",
            ),
            CodecError::InputNotOrdered => String::from_str("input is not strictly ordered"),
            CodecError::InvalidDefinition => String::from_str("invalid collection definition"),
            CodecError::SchemaMissing { collection } => {
                let mut r: String = String::from_str("collection ");
                r.append(quote(collection).as_str());
                r.append(" has no schema metadata");
                r
            },
            CodecError::SchemaMismatch { collection, expected_id, expected_version } => {
                let mut r: String = String::from_str("collection ");
                r.append(quote(collection).as_str());
                r.append(" does not match schema ");
                r.append(quote(expected_id).as_str());
                r.append(" version ");
                error::push_decimal(&mut r, *expected_version as u64);
                r
            },
        }
    }
}

impl From<Error> for CodecError {
    fn from(value: Error) -> (r: Self) {
        CodecError::Storage(value)
    }
}

impl vstd::std_specs::convert::FromSpecImpl<Error> for CodecError {
    open spec fn obeys_from_spec() -> bool {
        true
    }

    open spec fn from_spec(value: Error) -> Self {
        CodecError::Storage(value)
    }
}

impl From<CodecError> for TransactionError<CodecError> {
    fn from(value: CodecError) -> (r: Self) {
        match value {
            CodecError::Storage(error) => TransactionError::Storage(error),
            other => TransactionError::Application(other),
        }
    }
}

impl vstd::std_specs::convert::FromSpecImpl<CodecError> for TransactionError<CodecError> {
    open spec fn obeys_from_spec() -> bool {
        true
    }

    open spec fn from_spec(value: CodecError) -> Self {
        match value {
            CodecError::Storage(error) => TransactionError::Storage(error),
            other => TransactionError::Application(other),
        }
    }
}

/// Converts typed keys to and from their ordered byte representation.
pub trait KeyCodec<K> {
    /// Whether encoded byte order is the same as `K`'s desired order.
    const ORDER_PRESERVING: bool;

    /// The bytes of a key, if it has any. A codec that does not say leaves it open.
    open spec fn key_bytes(&self, key: K) -> Option<Seq<u8>> {
        vstd::pervasive::arbitrary()
    }

    /// Whether bytes are read as a key.
    open spec fn reads_key(&self, s: Seq<u8>, key: K) -> bool {
        vstd::pervasive::arbitrary()
    }

    /// Turns a key into bytes.
    fn encode_key(&self, key: &K) -> (r: Result<Vec<u8>, CodecError>)
        ensures
            match r {
                Ok(s) => self.key_bytes(*key) == Some(s@),
                Err(_) => self.key_bytes(*key) is None,
            },
    ;

    /// Turns bytes into a key.
    fn decode_key(&self, s: &[u8]) -> (r: Result<K, CodecError>)
        ensures
            match r {
                Ok(key) => self.reads_key(s@, key),
                Err(_) => forall|key: K| !self.reads_key(s@, key),
            },
    ;
}

/// Converts typed values to and from bytes.
pub trait ValueCodec<V> {
    /// The bytes of a value, if it has any. A codec that does not say leaves it open.
    open spec fn value_bytes(&self, value: V) -> Option<Seq<u8>> {
        vstd::pervasive::arbitrary()
    }

    /// Whether bytes are read as a value.
    open spec fn reads_value(&self, s: Seq<u8>, value: V) -> bool {
        vstd::pervasive::arbitrary()
    }

    /// Turns a value into bytes.
    fn encode_value(&self, value: &V) -> (r: Result<Vec<u8>, CodecError>)
        ensures
            match r {
                Ok(s) => self.value_bytes(*value) == Some(s@),
                Err(_) => self.value_bytes(*value) is None,
            },
    ;

    /// Turns bytes into a value.
    fn decode_value(&self, s: &[u8]) -> (r: Result<V, CodecError>)
        ensures
            match r {
                Ok(value) => self.reads_value(s@, value),
                Err(_) => forall|value: V| !self.reads_value(s@, value),
            },
    ;
}

/// Combines independent key and value codecs.
#[derive(Clone, Copy, Debug, Default)]
pub struct TypedCodec<KC, VC> {
    pub key: KC,
    pub value: VC,
}

impl<KC, VC> TypedCodec<KC, VC> {
    /// A codec for keys and one for values.
    pub fn new(key: KC, value: VC) -> (r: Self)
        ensures
            r.key == key,
            r.value == value,
    {
        TypedCodec { key, value }
    }
}

impl<K, KC: KeyCodec<K>, VC> KeyCodec<K> for TypedCodec<KC, VC> {
    const ORDER_PRESERVING: bool = KC::ORDER_PRESERVING;

    open spec fn key_bytes(&self, key: K) -> Option<Seq<u8>> {
        self.key.key_bytes(key)
    }

    open spec fn reads_key(&self, s: Seq<u8>, key: K) -> bool {
        self.key.reads_key(s, key)
    }

    fn encode_key(&self, key: &K) -> (r: Result<Vec<u8>, CodecError>) {
        self.key.encode_key(key)
    }

    fn decode_key(&self, s: &[u8]) -> (r: Result<K, CodecError>) {
        self.key.decode_key(s)
    }
}

impl<V, KC, VC: ValueCodec<V>> ValueCodec<V> for TypedCodec<KC, VC> {
    open spec fn value_bytes(&self, value: V) -> Option<Seq<u8>> {
        self.value.value_bytes(value)
    }

    open spec fn reads_value(&self, s: Seq<u8>, value: V) -> bool {
        self.value.reads_value(s, value)
    }

    fn encode_value(&self, value: &V) -> (r: Result<Vec<u8>, CodecError>) {
        self.value.encode_value(value)
    }

    fn decode_value(&self, s: &[u8]) -> (r: Result<V, CodecError>) {
        self.value.decode_value(s)
    }
}

/// Whether a result is the value that optional bytes are read as.
pub open spec fn value_read<V, C: ValueCodec<V>>(
    codec: C,
    stored: Option<Seq<u8>>,
    r: Result<Option<V>, CodecError>,
) -> bool {
    match stored {
        None => r is Ok && r->Ok_0 is None,
        Some(s) => match r {
            Ok(Some(value)) => codec.reads_value(s, value),
            Ok(None) => false,
            Err(_) => forall|value: V| !codec.reads_value(s, value),
        },
    }
}

/// Reads optional bytes as a value.
pub fn read_value<V, C: ValueCodec<V>>(codec: &C, stored: Option<&Vec<u8>>) -> (r: Result<
    Option<V>,
    CodecError,
>)
    ensures
        value_read(
            *codec,
            match stored {
                Some(s) => Some(s@),
                None => None,
            },
            r,
        ),
{
    match stored {
        None => Ok(None),
        Some(s) => match codec.decode_value(s) {
            Ok(value) => Ok(Some(value)),
            Err(e) => Err(e),
        },
    }
}

/// Whether typed entries are what pairs are read as, one for one.
pub open spec fn entries_read<K, V, C: KeyCodec<K> + ValueCodec<V>>(
    codec: C,
    pairs: Seq<(Seq<u8>, Seq<u8>)>,
    entries: Seq<(K, V)>,
) -> bool {
    &&& entries.len() == pairs.len()
    &&& forall|i: int|
        0 <= i < pairs.len() ==> codec.reads_key(pairs[i].0, (#[trigger] entries[i]).0)
            && codec.reads_value(pairs[i].1, entries[i].1)
}

/// Whether no key or no value is read from a pair.
pub open spec fn unreadable<K, V, C: KeyCodec<K> + ValueCodec<V>>(
    codec: C,
    pair: (Seq<u8>, Seq<u8>),
) -> bool {
    (forall|k: K| !codec.reads_key(pair.0, k)) || (forall|v: V| !codec.reads_value(pair.1, v))
}

/// Whether a result is what pairs are read as, or tells that one of them is
/// not readable.
pub open spec fn listing_read<K, V, C: KeyCodec<K> + ValueCodec<V>>(
    codec: C,
    pairs: Seq<(Seq<u8>, Seq<u8>)>,
    r: Result<Vec<(K, V)>, CodecError>,
) -> bool {
    match r {
        Ok(entries) => entries_read(codec, pairs, entries@),
        Err(_) => exists|i: int|
            0 <= i < pairs.len() && unreadable::<K, V, C>(codec, #[trigger] pairs[i]),
    }
}

/// The pairs of a list whose keys lie between two keys, both among them.
pub open spec fn pairs_between(
    l: Seq<DataView>,
    bounds: Option<(Seq<u8>, Seq<u8>)>,
) -> Seq<(Seq<u8>, Seq<u8>)>
    decreases l.len(),
{
    if l.len() == 0 {
        Seq::empty()
    } else {
        let front = pairs_between(l.drop_last(), bounds);
        match l.last() {
            DataView::Bucket(_) => front,
            DataView::KeyValue(key, value) => if bounds matches Some((start, end)) && !(
            bytes::lex_le(start, key) && bytes::lex_le(key, end)) {
                front
            } else {
                front.push((key, value))
            },
        }
    }
}

/// A typed view over a raw bucket. Raw and typed views share one transaction.
pub struct TypedBucket<'a, K, V, C> {
    pub raw: Bucket<'a>,
    pub codec: C,
    pub marker: PhantomData<(K, V)>,
}

/// Reads the pairs of a bucket, those between two keys if any are given.
fn read_entries<K, V, C: KeyCodec<K> + ValueCodec<V>>(
    codec: &C,
    node: &Node,
    bounds: Option<(&Vec<u8>, &Vec<u8>)>,
) -> (r: Result<Vec<(K, V)>, CodecError>)
    requires
        node.wf(),
    ensures
        listing_read(
            *codec,
            pairs_between(
                cursor::data_in(node@),
                match bounds {
                    Some((start, end)) => Some((start@, end@)),
                    None => None,
                },
            ),
            r,
        ),
{
    let ghost l = cursor::data_in(node@);
    let ghost limits = match bounds {
        Some((start, end)) => Some((start@, end@)),
        None => None,
    };
    proof {
        crate::api::map::lemma_data_in_order(*node);
        assert(l.take(0) =~= Seq::<DataView>::empty());
    }
    let mut out: Vec<(K, V)> = Vec::new();
    let mut i: usize = 0;
    while i < node.len()
        invariant
            node.wf(),
            l == cursor::data_in(node@),
            l.len() == node.leaves().len(),
            limits == (match bounds {
                Some((start, end)) => Some((start@, end@)),
                None => None,
            }),
            i <= l.len(),
            entries_read(*codec, pairs_between(l.take(i as int), limits), out@),
        decreases l.len() - i,
    {
        let ghost was = out@;
        let ghost before = pairs_between(l.take(i as int), limits);
        proof {
            node.lemma_leaves();
            assert(l.take(i + 1).drop_last() =~= l.take(i as int));
            assert(l.take(i + 1).last() == l[i as int]);
            assert(tree::listing(node@)[i as int] == (
                node.leaves()[i as int].0,
                node.leaves()[i as int].1.item(),
            ));
        }
        let key: &Vec<u8> = node.key_at(i);
        let leaf: &Leaf = node.leaf_at(i);
        proof {
            leaf.lemma_item();
        }
        match leaf {
            Leaf::Bucket(_) => {},
            Leaf::Kv(value) => {
                let within: bool = match bounds {
                    None => true,
                    Some((start, end)) => {
                        proof {
                            bytes::lemma_lex_total(start@, key@);
                            bytes::lemma_lex_total(key@, end@);
                            bytes::lemma_lex_irreflexive(key@);
                            if bytes::lex_lt(start@, key@) && bytes::lex_lt(key@, start@) {
                                bytes::lemma_lex_transitive(key@, start@, key@);
                            }
                            if bytes::lex_lt(key@, end@) && bytes::lex_lt(end@, key@) {
                                bytes::lemma_lex_transitive(key@, end@, key@);
                            }
                        }
                        !less(key, start) && !less(end, key)
                    },
                };
                if within {
                    proof {
                        assert(pairs_between(l.take(i + 1), limits) == before.push((key@, value@)));
                        lemma_pairs_stay(l, limits, i + 1, l.len() as int);
                        assert(l.take(l.len() as int) =~= l);
                        assert(pairs_between(l.take(i + 1), limits)[before.len() as int] == (
                            key@,
                            value@,
                        ));
                    }
                    let k: K = match codec.decode_key(key) {
                        Ok(k) => k,
                        Err(e) => {
                            assert(unreadable::<K, V, C>(
                                *codec,
                                pairs_between(l, limits)[before.len() as int],
                            ));
                            return Err(e);
                        },
                    };
                    let v: V = match codec.decode_value(value) {
                        Ok(v) => v,
                        Err(e) => {
                            assert(unreadable::<K, V, C>(
                                *codec,
                                pairs_between(l, limits)[before.len() as int],
                            ));
                            return Err(e);
                        },
                    };
                    out.push((k, v));
                    proof {
                        let now = pairs_between(l.take(i + 1), limits);
                        assert forall|j: int| 0 <= j < now.len() implies codec.reads_key(
                            now[j].0,
                            (#[trigger] out@[j]).0,
                        ) && codec.reads_value(now[j].1, out@[j].1) by {
                            if j < before.len() {
                                assert(out@[j] == was[j]);
                            }
                        }
                    }
                }
            },
        }
        i = i + 1;
    }
    assert(l.take(i as int) =~= l);
    Ok(out)
}

/// What was listed of a beginning stays listed.
proof fn lemma_pairs_stay(
    l: Seq<DataView>,
    bounds: Option<(Seq<u8>, Seq<u8>)>,
    i: int,
    n: int,
)
    requires
        0 <= i <= n <= l.len(),
    ensures
        pairs_between(l.take(i), bounds).len() <= pairs_between(l.take(n), bounds).len(),
        forall|j: int|
            0 <= j < pairs_between(l.take(i), bounds).len() ==> #[trigger] pairs_between(
                l.take(n),
                bounds,
            )[j] == pairs_between(l.take(i), bounds)[j],
    decreases n - i,
{
    if i < n {
        lemma_pairs_stay(l, bounds, i, n - 1);
        assert(l.take(n).drop_last() =~= l.take(n - 1));
    }
}

impl<'a, K, V, C: KeyCodec<K> + ValueCodec<V>> TypedBucket<'a, K, V, C> {
    /// A typed view over a bucket.
    pub fn new(raw: Bucket<'a>, codec: C) -> (r: Self)
        ensures
            r.raw == raw,
            r.codec == codec,
    {
        TypedBucket { raw, codec, marker: PhantomData }
    }

    /// The bucket itself.
    pub fn raw(&self) -> (r: &Bucket<'a>)
        ensures
            *r == self.raw,
    {
        &self.raw
    }

    /// The value under a key.
    pub fn get(&self, key: &K) -> (r: Result<Option<V>, CodecError>)
        requires
            self.raw.wf(),
        ensures
            match self.codec.key_bytes(*key) {
                None => r is Err,
                Some(k) => value_read(
                    self.codec,
                    tree::value_of(self.raw.space().tree, k),
                    r,
                ),
            },
    {
        let k: Vec<u8> = match self.codec.encode_key(key) {
            Ok(k) => k,
            Err(e) => return Err(e),
        };
        read_value(&self.codec, self.raw.get_kv(&k))
    }

    /// Stores a value, and hands back the one before.
    pub fn put(&mut self, key: &K, value: &V) -> (r: Result<Option<V>, CodecError>)
        requires
            old(self).raw.wf(),
        ensures
            final(self).raw.wf(),
            final(self).codec == old(self).codec,
            final(self).raw.path == old(self).raw.path,
            final(self).raw.writable == old(self).raw.writable,
            *final(final(self).raw.node) == *final(old(self).raw.node),
            *final(final(self).raw.log) == *final(old(self).raw.log),
            match (old(self).codec.key_bytes(*key), old(self).codec.value_bytes(*value)) {
                (Some(k), Some(v)) => if !old(self).raw.writable {
                    r == Err::<Option<V>, CodecError>(CodecError::Storage(Error::ReadOnlyTx))
                        && final(self).raw.space() == old(self).raw.space()
                } else {
                    let (want, after) = bucket::put(
                        old(self).raw.space(),
                        old(self).raw.at(),
                        k,
                        v,
                    );
                    &&& final(self).raw.space() == after
                    &&& match want {
                        Err(e) => r == Err::<Option<V>, CodecError>(CodecError::Storage(e)),
                        Ok(before) => value_read(old(self).codec, before, r),
                    }
                },
                _ => r is Err && final(self).raw.space() == old(self).raw.space(),
            },
    {
        let k: Vec<u8> = match self.codec.encode_key(key) {
            Ok(k) => k,
            Err(e) => return Err(e),
        };
        let v: Vec<u8> = match self.codec.encode_value(value) {
            Ok(v) => v,
            Err(e) => return Err(e),
        };
        match self.raw.put(&k, v) {
            Ok(before) => read_value(&self.codec, before.as_ref()),
            Err(e) => Err(CodecError::Storage(e)),
        }
    }

    /// Removes a value, and hands it back.
    pub fn delete(&mut self, key: &K) -> (r: Result<V, CodecError>)
        requires
            old(self).raw.wf(),
        ensures
            final(self).raw.wf(),
            final(self).codec == old(self).codec,
            final(self).raw.path == old(self).raw.path,
            final(self).raw.writable == old(self).raw.writable,
            *final(final(self).raw.node) == *final(old(self).raw.node),
            *final(final(self).raw.log) == *final(old(self).raw.log),
            match old(self).codec.key_bytes(*key) {
                Some(k) => if !old(self).raw.writable {
                    r == Err::<V, CodecError>(CodecError::Storage(Error::ReadOnlyTx))
                        && final(self).raw.space() == old(self).raw.space()
                } else {
                    let (want, after) = bucket::delete(old(self).raw.space(), old(self).raw.at(), k);
                    &&& final(self).raw.space() == after
                    &&& match want {
                        Err(e) => r == Err::<V, CodecError>(CodecError::Storage(e)),
                        Ok(s) => match r {
                            Ok(value) => old(self).codec.reads_value(s, value),
                            Err(_) => forall|value: V| !old(self).codec.reads_value(s, value),
                        },
                    }
                },
                None => r is Err && final(self).raw.space() == old(self).raw.space(),
            },
    {
        let k: Vec<u8> = match self.codec.encode_key(key) {
            Ok(k) => k,
            Err(e) => return Err(e),
        };
        match self.raw.delete(&k) {
            Ok(s) => self.codec.decode_value(&s),
            Err(e) => Err(CodecError::Storage(e)),
        }
    }

    /// Every pair, in key order.
    pub fn entries(&self) -> (r: Result<Vec<(K, V)>, CodecError>)
        requires
            self.raw.wf(),
        ensures
            listing_read(
                self.codec,
                pairs_between(cursor::data_in(self.raw.space().tree), None),
                r,
            ),
    {
        read_entries(&self.codec, self.raw.node, None)
    }

    /// Returns an inclusive typed range when the key codec preserves ordering.
    pub fn range_inclusive(&self, start: &K, end: &K) -> (r: Result<Vec<(K, V)>, CodecError>)
        requires
            self.raw.wf(),
        ensures
            if !C::ORDER_PRESERVING {
                r == Err::<Vec<(K, V)>, CodecError>(CodecError::OrderingRequired)
            } else {
                match (self.codec.key_bytes(*start), self.codec.key_bytes(*end)) {
                    (Some(a), Some(b)) => listing_read(
                        self.codec,
                        pairs_between(cursor::data_in(self.raw.space().tree), Some((a, b))),
                        r,
                    ),
                    _ => r is Err,
                }
            },
    {
        if !C::ORDER_PRESERVING {
            return Err(CodecError::OrderingRequired);
        }
        let a: Vec<u8> = match self.codec.encode_key(start) {
            Ok(a) => a,
            Err(e) => return Err(e),
        };
        let b: Vec<u8> = match self.codec.encode_key(end) {
            Ok(b) => b,
            Err(e) => return Err(e),
        };
        read_entries(&self.codec, self.raw.node, Some((&a, &b)))
    }
}

} // verus!
