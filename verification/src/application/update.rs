//! Writes to typed collections that depend on what is there.

use crate::api::bucket::Space;
use crate::api::cursor;
use crate::api::tree::Tree;
use crate::application::collection;
use crate::application::iter::{self, Found, Scan};
use crate::application::writing::{self, NumericValueCodec, Refusal, WriteCollection};
use crate::typed::{CodecError, KeyCodec, ValueCodec};
use vstd::prelude::*;
use vstd::std_specs::ops::AddSpec;

verus! {

/// Whether a result, and what is there after it, are those of taking out the
/// one entry that was found.
pub open spec fn popped<K, V, C: KeyCodec<K> + ValueCodec<V>>(
    codec: C,
    s: Space,
    path: Seq<Seq<u8>>,
    next: Found,
    r: Result<Option<(K, V)>, CodecError>,
    after: Space,
) -> bool {
    match r {
        Ok(Some(entry)) => {
            &&& next is Pair
            &&& collection::one_read(codec, next, r)
            &&& exists|taken: Option<V>|
                #[trigger] writing::take_told(
                    codec,
                    s,
                    path,
                    entry.0,
                    Ok::<Option<V>, CodecError>(taken),
                    after,
                )
        },
        Ok(None) => next is End && after == s,
        Err(e) => {
            ||| (collection::one_read(codec, next, r) && after == s)
            ||| exists|entry: (K, V)|
                collection::one_read(
                    codec,
                    next,
                    Ok::<Option<(K, V)>, CodecError>(Some(entry)),
                ) && #[trigger] writing::take_told(
                    codec,
                    s,
                    path,
                    entry.0,
                    Err::<Option<V>, CodecError>(e),
                    after,
                )
        },
    }
}

impl<'a, K, V, C: KeyCodec<K> + ValueCodec<V>> WriteCollection<'a, K, V, C> {
    /// Takes out an entry that was found.
    fn pop(&mut self, found: Result<Option<(K, V)>, CodecError>, Ghost(next): Ghost<Found>) -> (r:
        Result<Option<(K, V)>, CodecError>)
        requires
            old(self).wf(),
            collection::one_read(*old(self).codec, next, found),
        ensures
            final(self).wf(),
            final(self).codec == old(self).codec,
            final(self).raw.path == old(self).raw.path,
            *final(final(self).raw.node) == *final(old(self).raw.node),
            *final(final(self).raw.log) == *final(old(self).raw.log),
            popped(
                *old(self).codec,
                old(self).raw.space(),
                old(self).raw.at(),
                next,
                r,
                final(self).raw.space(),
            ),
    {
        let ghost was = found;
        let entry: (K, V) = match found {
            Ok(Some(entry)) => entry,
            Ok(None) => return Ok(None),
            Err(e) => return Err(e),
        };
        assert(was == Ok::<Option<(K, V)>, CodecError>(Some(entry)));
        match self.remove(&entry.0) {
            Ok(_) => Ok(Some(entry)),
            Err(e) => Err(e),
        }
    }

    /// Takes out the first live entry.
    pub fn pop_first(&mut self, now: u64) -> (r: Result<Option<(K, V)>, CodecError>)
        requires
            old(self).wf(),
        ensures
            final(self).wf(),
            final(self).codec == old(self).codec,
            final(self).raw.path == old(self).raw.path,
            *final(final(self).raw.node) == *final(old(self).raw.node),
            *final(final(self).raw.log) == *final(old(self).raw.log),
            popped(
                *old(self).codec,
                old(self).raw.space(),
                old(self).raw.at(),
                iter::found(
                    cursor::data_in(old(self).raw.space().tree),
                    cursor::unplaced(),
                    iter::everything(),
                    iter::table_of(old(self).raw.space().tree),
                    now,
                ).0,
                r,
                final(self).raw.space(),
            ),
    {
        let ghost t = self.raw.space().tree;
        let found: Result<Option<(K, V)>, CodecError> = self.as_read().first(now);
        self.pop(
            found,
            Ghost(
                iter::found(
                    cursor::data_in(t),
                    cursor::unplaced(),
                    iter::everything(),
                    iter::table_of(t),
                    now,
                ).0,
            ),
        )
    }

    /// Takes out the last live entry.
    pub fn pop_last(&mut self, now: u64) -> (r: Result<Option<(K, V)>, CodecError>)
        requires
            old(self).wf(),
        ensures
            final(self).wf(),
            final(self).codec == old(self).codec,
            final(self).raw.path == old(self).raw.path,
            *final(final(self).raw.node) == *final(old(self).raw.node),
            *final(final(self).raw.log) == *final(old(self).raw.log),
            popped(
                *old(self).codec,
                old(self).raw.space(),
                old(self).raw.at(),
                iter::found(
                    cursor::data_in(old(self).raw.space().tree),
                    collection::at_last(cursor::data_in(old(self).raw.space().tree)),
                    collection::everything_back(),
                    iter::table_of(old(self).raw.space().tree),
                    now,
                ).0,
                r,
                final(self).raw.space(),
            ),
    {
        let ghost t = self.raw.space().tree;
        let found: Result<Option<(K, V)>, CodecError> = self.as_read().last(now);
        self.pop(
            found,
            Ghost(
                iter::found(
                    cursor::data_in(t),
                    collection::at_last(cursor::data_in(t)),
                    collection::everything_back(),
                    iter::table_of(t),
                    now,
                ).0,
            ),
        )
    }

    /// Takes out the entries under some keys, once they were gathered.
    fn remove_gathered(
        &mut self,
        keys: Vec<K>,
        Ghost(found): Ghost<(Seq<(Seq<u8>, Seq<u8>)>, collection::Stop)>,
    ) -> (r: Result<usize, CodecError>)
        requires
            old(self).wf(),
            found.1 is End,
            writing::keys_read(*old(self).codec, found.0, keys@),
        ensures
            final(self).wf(),
            final(self).codec == old(self).codec,
            final(self).raw.path == old(self).raw.path,
            *final(final(self).raw.node) == *final(old(self).raw.node),
            *final(final(self).raw.log) == *final(old(self).raw.log),
            writing::swept::<K, V, C>(
                *old(self).codec,
                old(self).raw.space(),
                old(self).raw.at(),
                found,
                r,
                final(self).raw.space(),
            ),
    {
        let ghost codec = *self.codec;
        let ghost s = self.raw.space();
        let ghost at = self.raw.at();
        match self.remove_many(&keys) {
            Ok(_) => {
                assert(writing::take_all::<K, V, C>(codec, s, at, keys@) == (
                    None::<Refusal>,
                    self.raw.space(),
                ));
                Ok(keys.len())
            },
            Err(e) => {
                assert(writing::take_all::<K, V, C>(codec, s, at, keys@).1 == self.raw.space());
                Err(e)
            },
        }
    }

    /// Takes out every live entry from a key on and before another; how many
    /// there were.
    pub fn delete_range(&mut self, first: &K, end_exclusive: &K, now: u64) -> (r: Result<
        usize,
        CodecError,
    >)
        requires
            old(self).wf(),
        ensures
            final(self).wf(),
            final(self).codec == old(self).codec,
            final(self).raw.path == old(self).raw.path,
            *final(final(self).raw.node) == *final(old(self).raw.node),
            *final(final(self).raw.log) == *final(old(self).raw.log),
            ({
                let codec = *old(self).codec;
                let s = old(self).raw.space();
                let l = cursor::data_in(s.tree);
                if !C::ORDER_PRESERVING {
                    r is Err && r->Err_0 is OrderingRequired && final(self).raw.space() == s
                } else {
                    match (codec.key_bytes(*first), codec.key_bytes(*end_exclusive)) {
                        (Some(a), Some(b)) => writing::swept::<K, V, C>(
                            codec,
                            s,
                            old(self).raw.at(),
                            writing::gathered(
                                l,
                                collection::started(l, a, false),
                                (Scan { upper: Some((b, false)), ..iter::everything() }),
                                iter::table_of(s.tree),
                                now,
                            ),
                            r,
                            final(self).raw.space(),
                        ),
                        _ => r is Err && final(self).raw.space() == s,
                    }
                }
            }),
    {
        let ghost t = self.raw.space().tree;
        let ghost l = cursor::data_in(t);
        let ghost a = self.codec.key_bytes(*first);
        let ghost b = self.codec.key_bytes(*end_exclusive);
        let keys: Vec<K> = match self.as_read().range(first, end_exclusive) {
            Ok(traversal) => match writing::gather(traversal, now) {
                Ok(keys) => keys,
                Err(e) => return Err(e),
            },
            Err(e) => return Err(e),
        };
        self.remove_gathered(
            keys,
            Ghost(
                writing::gathered(
                    l,
                    collection::started(l, a->Some_0, false),
                    Scan { upper: Some((b->Some_0, false)), ..iter::everything() },
                    iter::table_of(t),
                    now,
                ),
            ),
        )
    }

    /// Takes out every live entry whose key begins with a prefix; how many
    /// there were.
    pub fn delete_prefix(&mut self, prefix: &[u8], now: u64) -> (r: Result<usize, CodecError>)
        requires
            old(self).wf(),
        ensures
            final(self).wf(),
            final(self).codec == old(self).codec,
            final(self).raw.path == old(self).raw.path,
            *final(final(self).raw.node) == *final(old(self).raw.node),
            *final(final(self).raw.log) == *final(old(self).raw.log),
            ({
                let s = old(self).raw.space();
                let l = cursor::data_in(s.tree);
                writing::swept::<K, V, C>(
                    *old(self).codec,
                    s,
                    old(self).raw.at(),
                    writing::gathered(
                        l,
                        collection::started(l, prefix@, false),
                        (Scan { prefix: Some(prefix@), ..iter::everything() }),
                        iter::table_of(s.tree),
                        now,
                    ),
                    r,
                    final(self).raw.space(),
                )
            }),
    {
        let ghost t = self.raw.space().tree;
        let ghost l = cursor::data_in(t);
        let keys: Vec<K> = match writing::gather(self.as_read().prefix(prefix), now) {
            Ok(keys) => keys,
            Err(e) => return Err(e),
        };
        self.remove_gathered(
            keys,
            Ghost(
                writing::gathered(
                    l,
                    collection::started(l, prefix@, false),
                    Scan { prefix: Some(prefix@), ..iter::everything() },
                    iter::table_of(t),
                    now,
                ),
            ),
        )
    }

    /// The state of a key, to be looked at and changed.
    pub fn entry(&mut self, key: K, now: u64) -> (r: Result<Entry<'_, 'a, K, V, C>, CodecError>)
        requires
            old(self).wf(),
        ensures
            match r {
                Ok(entry) => {
                    &&& entry.key == key
                    &&& collection::got(
                        *old(self).codec,
                        old(self).raw.space().tree,
                        key,
                        now,
                        Ok::<Option<V>, CodecError>(entry.current),
                    )
                    &&& *entry.collection == *old(self)
                    &&& *final(self) == *final(entry.collection)
                },
                Err(e) => collection::got(
                    *old(self).codec,
                    old(self).raw.space().tree,
                    key,
                    now,
                    Err::<Option<V>, CodecError>(e),
                ) && *final(self) == *old(self),
            },
    {
        match self.get(&key, now) {
            Ok(current) => Ok(Entry { collection: self, key, current }),
            Err(e) => Err(e),
        }
    }
}

/// Typed state of a key in a writable collection.
pub struct Entry<'e, 'a, K, V, C> {
    pub collection: &'e mut WriteCollection<'a, K, V, C>,
    pub key: K,
    pub current: Option<V>,
}

impl<'e, 'a, K, V, C: KeyCodec<K> + ValueCodec<V>> Entry<'e, 'a, K, V, C> {
    /// Whether the key had a value.
    pub fn is_occupied(&self) -> (r: bool)
        ensures
            r == (self.current is Some),
    {
        self.current.is_some()
    }

    /// Whether the key had no value.
    pub fn is_vacant(&self) -> (r: bool)
        ensures
            r == (self.current is None),
    {
        self.current.is_none()
    }

    /// The value that the key had.
    pub fn get(&self) -> (r: Option<&V>)
        ensures
            match (r, self.current) {
                (Some(a), Some(b)) => *a == b,
                (None, None) => true,
                _ => false,
            },
    {
        match &self.current {
            Some(value) => Some(value),
            None => None,
        }
    }

    /// Stores what a value is to become, if there is one.
    pub fn and_modify<F: FnOnce(V) -> V>(self, update: F) -> (r: Result<Self, CodecError>)
        requires
            self.collection.wf(),
            self.current matches Some(value) ==> call_requires(update, (value,)),
        ensures
            match self.current {
                None => r matches Ok(entry) && entry.key == self.key && entry.current is None
                    && *entry.collection == *old(self.collection) && *final(entry.collection)
                    == *final(self.collection),
                Some(value) => exists|next: V|
                    #[trigger] call_ensures(update, (self.current->Some_0,), next) && match r {
                        Ok(entry) => {
                            &&& entry.key == self.key
                            &&& entry.current == Some(next)
                            &&& *final(entry.collection) == *final(self.collection)
                            &&& entry.collection.wf()
                            &&& entry.collection.codec == old(self.collection).codec
                            &&& entry.collection.raw.path == old(self.collection).raw.path
                            &&& *final(entry.collection.raw.node) == *final(
                                old(self.collection).raw.node
                            )
                            &&& *final(entry.collection.raw.log) == *final(
                                old(self.collection).raw.log
                            )
                            &&& exists|before: Option<V>|
                                #[trigger] writing::insert_told(
                                    *old(self.collection).codec,
                                    old(self.collection).raw.space(),
                                    old(self.collection).raw.at(),
                                    self.key,
                                    next,
                                    None,
                                    Ok::<Option<V>, CodecError>(before),
                                    (r->Ok_0).collection.raw.space(),
                                )
                        },
                        Err(e) => {
                            &&& final(self.collection).wf()
                            &&& final(self.collection).codec == old(self.collection).codec
                            &&& final(self.collection).raw.path == old(self.collection).raw.path
                            &&& *final(final(self.collection).raw.node) == *final(
                                old(self.collection).raw.node
                            )
                            &&& *final(final(self.collection).raw.log) == *final(
                                old(self.collection).raw.log
                            )
                            &&& writing::insert_told(
                                *old(self.collection).codec,
                                old(self.collection).raw.space(),
                                old(self.collection).raw.at(),
                                self.key,
                                next,
                                None,
                                Err::<Option<V>, CodecError>(e),
                                final(self.collection).raw.space(),
                            )
                        },
                    },
            },
    {
        let Entry { collection, key, current } = self;
        match current {
            None => Ok(Entry { collection, key, current: None }),
            Some(value) => {
                let next: V = update(value);
                assert(call_ensures(update, (value,), next));
                match collection.insert(&key, &next) {
                    Ok(_) => Ok(Entry { collection, key, current: Some(next) }),
                    Err(e) => Err(e),
                }
            },
        }
    }

    /// The value that the key had, or a value that is stored in its place.
    pub fn or_insert(self, default: V) -> (r: Result<V, CodecError>)
        requires
            self.collection.wf(),
        ensures
            final(self.collection).wf(),
            final(self.collection).codec == old(self.collection).codec,
            final(self.collection).raw.path == old(self.collection).raw.path,
            *final(final(self.collection).raw.node) == *final(old(self.collection).raw.node),
            *final(final(self.collection).raw.log) == *final(old(self.collection).raw.log),
            match self.current {
                Some(value) => r == Ok::<V, CodecError>(value)
                    && final(self.collection).raw.space() == old(self.collection).raw.space(),
                None => exists|told: Result<Option<V>, CodecError>|
                    {
                        &&& #[trigger] writing::insert_told(
                            *old(self.collection).codec,
                            old(self.collection).raw.space(),
                            old(self.collection).raw.at(),
                            self.key,
                            default,
                            None,
                            told,
                            final(self.collection).raw.space(),
                        )
                        &&& match told {
                            Ok(_) => r == Ok::<V, CodecError>(default),
                            Err(e) => r == Err::<V, CodecError>(e),
                        }
                    },
            },
    {
        match self.current {
            Some(value) => Ok(value),
            None => match self.collection.insert(&self.key, &default) {
                Ok(_) => Ok(default),
                Err(e) => Err(e),
            },
        }
    }

    /// The value that the key had, or one that is made and stored in its place.
    pub fn or_insert_with<F: FnOnce() -> V>(self, default: F) -> (r: Result<V, CodecError>)
        requires
            self.collection.wf(),
            self.current is None ==> call_requires(default, ()),
        ensures
            final(self.collection).wf(),
            final(self.collection).codec == old(self.collection).codec,
            final(self.collection).raw.path == old(self.collection).raw.path,
            *final(final(self.collection).raw.node) == *final(old(self.collection).raw.node),
            *final(final(self.collection).raw.log) == *final(old(self.collection).raw.log),
            match self.current {
                Some(value) => r == Ok::<V, CodecError>(value)
                    && final(self.collection).raw.space() == old(self.collection).raw.space(),
                None => exists|made: V, told: Result<Option<V>, CodecError>|
                    {
                        &&& #[trigger] call_ensures(default, (), made)
                        &&& #[trigger] writing::insert_told(
                            *old(self.collection).codec,
                            old(self.collection).raw.space(),
                            old(self.collection).raw.at(),
                            self.key,
                            made,
                            None,
                            told,
                            final(self.collection).raw.space(),
                        )
                        &&& match told {
                            Ok(_) => r == Ok::<V, CodecError>(made),
                            Err(e) => r == Err::<V, CodecError>(e),
                        }
                    },
            },
    {
        match self.current {
            Some(value) => Ok(value),
            None => {
                let made: V = default();
                match self.collection.insert(&self.key, &made) {
                    Ok(_) => Ok(made),
                    Err(e) => Err(e),
                }
            },
        }
    }

    /// Stores a value, and hands back the one before.
    pub fn replace(self, value: V) -> (r: Result<Option<V>, CodecError>)
        requires
            self.collection.wf(),
        ensures
            final(self.collection).wf(),
            final(self.collection).codec == old(self.collection).codec,
            final(self.collection).raw.path == old(self.collection).raw.path,
            *final(final(self.collection).raw.node) == *final(old(self.collection).raw.node),
            *final(final(self.collection).raw.log) == *final(old(self.collection).raw.log),
            writing::insert_told(
                *old(self.collection).codec,
                old(self.collection).raw.space(),
                old(self.collection).raw.at(),
                self.key,
                value,
                None,
                r,
                final(self.collection).raw.space(),
            ),
    {
        self.collection.insert(&self.key, &value)
    }

    /// Takes the value out.
    pub fn remove(self) -> (r: Result<Option<V>, CodecError>)
        requires
            self.collection.wf(),
        ensures
            final(self.collection).wf(),
            final(self.collection).codec == old(self.collection).codec,
            final(self.collection).raw.path == old(self.collection).raw.path,
            *final(final(self.collection).raw.node) == *final(old(self.collection).raw.node),
            *final(final(self.collection).raw.log) == *final(old(self.collection).raw.log),
            writing::take_told(
                *old(self.collection).codec,
                old(self.collection).raw.space(),
                old(self.collection).raw.at(),
                self.key,
                r,
                final(self.collection).raw.space(),
            ),
    {
        self.collection.remove(&self.key)
    }
}

/// Whether a number is the one under a key, or the one to begin with.
pub open spec fn counted<K, V: Default, C: KeyCodec<K> + ValueCodec<V>>(
    codec: C,
    t: Tree,
    key: K,
    now: u64,
    n: V,
) -> bool {
    ||| collection::got(codec, t, key, now, Ok::<Option<V>, CodecError>(Some(n)))
    ||| (collection::got(codec, t, key, now, Ok::<Option<V>, CodecError>(None)) && call_ensures(
        V::default,
        (),
        n,
    ))
}

impl<
    'a,
    K,
    V: Copy + Default + core::ops::Add<Output = V>,
    C: KeyCodec<K> + ValueCodec<V> + NumericValueCodec<V>,
> WriteCollection<'a, K, V, C> {
    /// Adds to the number under a key, and hands back what it was.
    pub fn fetch_add(&mut self, key: &K, amount: V, now: u64) -> (r: Result<V, CodecError>)
        requires
            old(self).wf(),
            call_requires(V::default, ()),
            forall|n: V| #[trigger]
                counted(*old(self).codec, old(self).raw.space().tree, *key, now, n)
                    ==> n.add_req(amount),
        ensures
            final(self).wf(),
            final(self).codec == old(self).codec,
            final(self).raw.path == old(self).raw.path,
            *final(final(self).raw.node) == *final(old(self).raw.node),
            *final(final(self).raw.log) == *final(old(self).raw.log),
            ({
                let codec = *old(self).codec;
                let s = old(self).raw.space();
                match r {
                    Ok(n) => counted(codec, s.tree, *key, now, n) && exists|sum: V, before: Option<V>|
                        (V::obeys_add_spec() ==> sum == n.add_spec(amount)) && #[trigger]
                        writing::insert_told(
                            codec,
                            s,
                            old(self).raw.at(),
                            *key,
                            sum,
                            None,
                            Ok::<Option<V>, CodecError>(before),
                            final(self).raw.space(),
                        ),
                    Err(e) => {
                        ||| (collection::got(
                            codec,
                            s.tree,
                            *key,
                            now,
                            Err::<Option<V>, CodecError>(e),
                        ) && final(self).raw.space() == s)
                        ||| exists|n: V, sum: V|
                            #[trigger] counted(codec, s.tree, *key, now, n) && (V::obeys_add_spec()
                                ==> sum == n.add_spec(amount)) && #[trigger] writing::insert_told(
                                codec,
                                s,
                                old(self).raw.at(),
                                *key,
                                sum,
                                None,
                                Err::<Option<V>, CodecError>(e),
                                final(self).raw.space(),
                            )
                    },
                }
            }),
    {
        let ghost codec = *self.codec;
        let ghost t = self.raw.space().tree;
        let n: V = match self.get(key, now) {
            Ok(Some(n)) => n,
            Ok(None) => V::default(),
            Err(e) => return Err(e),
        };
        assert(counted(codec, t, *key, now, n));
        let sum: V = n.add(amount);
        match self.insert(key, &sum) {
            Ok(_) => Ok(n),
            Err(e) => Err(e),
        }
    }
}

} // verus!
