//! What holds of writing to a typed collection.

use crate::api::bucket::{self, Space};
use crate::api::merge_laws::alike;
use crate::api::names;
use crate::api::tree::{self, Tree};
use crate::api::ttl;
use crate::application::batch_laws;
use crate::application::collection::{self, Stop};
use crate::application::iter::Found;
use crate::application::update;
use crate::application::writing::{self, Refusal};
use crate::error::Error;
use crate::typed::{CodecError, KeyCodec, ValueCodec};
use vstd::prelude::*;

verus! {

/// Whether under a key a bucket has what another has, with the same deadline.
pub open spec fn same_entry(a: Tree, b: Tree, k: Seq<u8>) -> bool {
    alike(a, b, k) && ttl::expires(a, k) == ttl::expires(b, k)
}

/// Whether a value was read from bytes, or there is neither.
pub open spec fn reads<V, C: ValueCodec<V>>(codec: C, stored: Option<Seq<u8>>, value: Option<V>) -> bool {
    match (stored, value) {
        (Some(s), Some(v)) => codec.reads_value(s, v),
        (None, None) => true,
        _ => false,
    }
}

proof fn lemma_inserted(
    s: Space,
    path: Seq<Seq<u8>>,
    key: Seq<u8>,
    value: Seq<u8>,
    deadline: Option<u64>,
    k: Seq<u8>,
)
    requires
        writing::inserted(s, path, key, value, deadline).0 is Ok,
        !names::about_ttl(key),
        !names::about_ttl(k),
    ensures
        ({
            let (r, after) = writing::inserted(s, path, key, value, deadline);
            &&& r == Ok::<Option<Seq<u8>>, Error>(tree::value_of(s.tree, key))
            &&& tree::value_of(after.tree, key) == Some(value)
            &&& ttl::expires(after.tree, key) == Ok::<Option<u64>, Error>(deadline)
            &&& k != key ==> same_entry(s.tree, after.tree, k)
        }),
{
    names::law_names_differ();
    let stored = bucket::put(s, path, key, value).1;
    assert(k != key ==> same_entry(s.tree, stored.tree, k));
    match deadline {
        Some(d) => {
            batch_laws::lemma_timed_apart(stored.tree, key, d, k);
            batch_laws::lemma_timed_apart(stored.tree, key, d, key);
        },
        None => {
            batch_laws::lemma_untimed_apart(stored.tree, key, k);
            batch_laws::lemma_untimed_apart(stored.tree, key, key);
        },
    }
}

proof fn lemma_removed(s: Space, path: Seq<Seq<u8>>, key: Seq<u8>, k: Seq<u8>)
    requires
        ttl::removed(s, path, key).0 is Ok,
        !names::about_ttl(key),
        !names::about_ttl(k),
    ensures
        ({
            let after = ttl::removed(s, path, key).1;
            &&& tree::value_of(s.tree, key) is Some
            &&& !after.tree.items.contains_key(key)
            &&& ttl::expires(after.tree, key) == Ok::<Option<u64>, Error>(None)
            &&& k != key ==> same_entry(s.tree, after.tree, k)
        }),
{
    names::law_names_differ();
    let gone = bucket::delete(s, path, key).1;
    assert(k != key ==> same_entry(s.tree, gone.tree, k));
    batch_laws::lemma_untimed_apart(gone.tree, key, k);
    batch_laws::lemma_untimed_apart(gone.tree, key, key);
}

/// An entry that was inserted has its value and its deadline, what it replaced
/// is handed back, and no other entry is touched.
pub proof fn law_insert_stores_the_entry<K, V, C: KeyCodec<K> + ValueCodec<V>>(
    codec: C,
    s: Space,
    path: Seq<Seq<u8>>,
    key: K,
    value: V,
    deadline: Option<u64>,
    before: Option<V>,
    after: Space,
    other: Seq<u8>,
)
    requires
        writing::insert_told(
            codec,
            s,
            path,
            key,
            value,
            deadline,
            Ok::<Option<V>, CodecError>(before),
            after,
        ),
        codec.key_bytes(key) matches Some(k) ==> !names::about_ttl(k),
        !names::about_ttl(other),
    ensures
        codec.key_bytes(key) is Some,
        codec.value_bytes(value) is Some,
        tree::value_of(after.tree, codec.key_bytes(key)->0) == codec.value_bytes(value),
        ttl::expires(after.tree, codec.key_bytes(key)->0) == Ok::<Option<u64>, Error>(deadline),
        reads(codec, tree::value_of(s.tree, codec.key_bytes(key)->0), before),
        other != codec.key_bytes(key)->0 ==> same_entry(s.tree, after.tree, other),
{
    lemma_inserted(
        s,
        path,
        codec.key_bytes(key)->0,
        codec.value_bytes(value)->0,
        deadline,
        other,
    );
}

/// An entry that was taken out is gone with its deadline, its value is handed
/// back, nothing is handed back just where there was nothing, and no other entry
/// is touched.
pub proof fn law_remove_takes_the_entry<K, V, C: KeyCodec<K> + ValueCodec<V>>(
    codec: C,
    s: Space,
    path: Seq<Seq<u8>>,
    key: K,
    taken: Option<V>,
    after: Space,
    other: Seq<u8>,
)
    requires
        writing::take_told(codec, s, path, key, Ok::<Option<V>, CodecError>(taken), after),
        codec.key_bytes(key) matches Some(k) ==> !names::about_ttl(k),
        !names::about_ttl(other),
    ensures
        codec.key_bytes(key) is Some,
        tree::value_of(after.tree, codec.key_bytes(key)->0) is None,
        reads(codec, tree::value_of(s.tree, codec.key_bytes(key)->0), taken),
        taken is Some ==> ttl::expires(after.tree, codec.key_bytes(key)->0) == Ok::<
            Option<u64>,
            Error,
        >(None),
        other != codec.key_bytes(key)->0 ==> same_entry(s.tree, after.tree, other),
{
    let k = codec.key_bytes(key)->0;
    if tree::value_of(s.tree, k) is Some {
        lemma_removed(s, path, k, other);
    }
}

/// Whether no entry's key is one that deadlines are kept under.
pub open spec fn ordinary_keys<K, V, C: KeyCodec<K> + ValueCodec<V>>(codec: C, entries: Seq<(K, V)>) -> bool {
    forall|i: int|
        0 <= i < entries.len() ==> (codec.key_bytes((#[trigger] entries[i]).0) matches Some(k)
            ==> !names::about_ttl(k))
}

/// Whether no entry from some place on has a key.
pub open spec fn unnamed_from<K, V, C: KeyCodec<K> + ValueCodec<V>>(
    codec: C,
    entries: Seq<(K, V)>,
    from: int,
    key: Seq<u8>,
) -> bool {
    forall|j: int|
        from <= j < entries.len() ==> codec.key_bytes((#[trigger] entries[j]).0) != Some(key)
}

proof fn lemma_front<K, V, C: KeyCodec<K> + ValueCodec<V>>(codec: C, entries: Seq<(K, V)>, from: int, key: Seq<u8>)
    requires
        entries.len() > 0,
        0 <= from,
        ordinary_keys(codec, entries),
    ensures
        ordinary_keys(codec, entries.drop_last()),
        unnamed_from(codec, entries, from, key) ==> unnamed_from(
            codec,
            entries.drop_last(),
            from,
            key,
        ),
{
    let front = entries.drop_last();
    assert forall|i: int| 0 <= i < front.len() implies (codec.key_bytes(
        (#[trigger] front[i]).0,
    ) matches Some(k) ==> !names::about_ttl(k)) by {
        assert(front[i] == entries[i]);
    }
    if unnamed_from(codec, entries, from, key) {
        assert forall|j: int| from <= j < front.len() implies codec.key_bytes(
            (#[trigger] front[j]).0,
        ) != Some(key) by {
            assert(front[j] == entries[j]);
        }
    }
}

/// Of the entries that are inserted together, each key has the value of its last
/// one.
pub proof fn law_insert_many_stores_every_entry<K, V, C: KeyCodec<K> + ValueCodec<V>>(
    codec: C,
    s: Space,
    path: Seq<Seq<u8>>,
    entries: Seq<(K, V)>,
    i: int,
)
    requires
        writing::insert_all(codec, s, path, entries).0 is None,
        ordinary_keys(codec, entries),
        0 <= i < entries.len(),
        codec.key_bytes(entries[i].0) matches Some(k) ==> unnamed_from(codec, entries, i + 1, k),
    ensures
        ({
            let after = writing::insert_all(codec, s, path, entries).1.tree;
            &&& codec.key_bytes(entries[i].0) matches Some(k)
            &&& codec.value_bytes(entries[i].1) is Some
            &&& tree::value_of(after, k) == codec.value_bytes(entries[i].1)
            &&& ttl::expires(after, k) == Ok::<Option<u64>, Error>(None)
        }),
    decreases entries.len(),
{
    let front = entries.drop_last();
    let n = entries.len() - 1;
    let mid = writing::insert_all(codec, s, path, front).1;
    let key = codec.key_bytes(entries[i].0)->0;
    assert(entries[n] == entries.last());
    lemma_front(codec, entries, i + 1, key);
    let k = codec.key_bytes(entries[n].0)->0;
    let v = codec.value_bytes(entries[n].1)->0;
    if i < n {
        assert(front[i] == entries[i]);
        law_insert_many_stores_every_entry(codec, s, path, front, i);
        assert(codec.key_bytes(entries[n].0) != Some(key));
    }
    lemma_inserted(mid, path, k, v, None, key);
}

/// Entries that are inserted together leave every other key as it was.
pub proof fn law_insert_many_leaves_the_rest<K, V, C: KeyCodec<K> + ValueCodec<V>>(
    codec: C,
    s: Space,
    path: Seq<Seq<u8>>,
    entries: Seq<(K, V)>,
    key: Seq<u8>,
)
    requires
        writing::insert_all(codec, s, path, entries).0 is None,
        ordinary_keys(codec, entries),
        unnamed_from(codec, entries, 0, key),
        !names::about_ttl(key),
    ensures
        same_entry(s.tree, writing::insert_all(codec, s, path, entries).1.tree, key),
    decreases entries.len(),
{
    if entries.len() > 0 {
        let front = entries.drop_last();
        let n = entries.len() - 1;
        let mid = writing::insert_all(codec, s, path, front).1;
        assert(entries[n] == entries.last());
        lemma_front(codec, entries, 0, key);
        law_insert_many_leaves_the_rest(codec, s, path, front, key);
        let k = codec.key_bytes(entries[n].0)->0;
        let v = codec.value_bytes(entries[n].1)->0;
        lemma_inserted(mid, path, k, v, None, key);
    }
}

/// Ordered input is stored entry by entry.
pub proof fn law_ordered_input_is_stored<K, V, C: KeyCodec<K> + ValueCodec<V>>(
    codec: C,
    s: Space,
    path: Seq<Seq<u8>>,
    entries: Seq<(K, V)>,
    i: int,
)
    requires
        writing::append_all(codec, s, path, entries).0 is None,
        ordinary_keys(codec, entries),
        0 <= i < entries.len(),
        codec.key_bytes(entries[i].0) matches Some(k) ==> unnamed_from(codec, entries, i + 1, k),
    ensures
        ({
            let after = writing::append_all(codec, s, path, entries).1.tree;
            &&& codec.key_bytes(entries[i].0) matches Some(k)
            &&& codec.value_bytes(entries[i].1) is Some
            &&& tree::value_of(after, k) == codec.value_bytes(entries[i].1)
            &&& ttl::expires(after, k) == Ok::<Option<u64>, Error>(None)
        }),
    decreases entries.len(),
{
    let front = entries.drop_last();
    let n = entries.len() - 1;
    let mid = writing::append_all(codec, s, path, front).1;
    let key = codec.key_bytes(entries[i].0)->0;
    assert(entries[n] == entries.last());
    lemma_front(codec, entries, i + 1, key);
    let k = codec.key_bytes(entries[n].0)->0;
    let v = codec.value_bytes(entries[n].1)->0;
    if i < n {
        assert(front[i] == entries[i]);
        law_ordered_input_is_stored(codec, s, path, front, i);
        assert(codec.key_bytes(entries[n].0) != Some(key));
    }
    lemma_inserted(mid, path, k, v, None, key);
}

/// Ordered input leaves every other key as it was.
pub proof fn law_ordered_input_leaves_the_rest<K, V, C: KeyCodec<K> + ValueCodec<V>>(
    codec: C,
    s: Space,
    path: Seq<Seq<u8>>,
    entries: Seq<(K, V)>,
    key: Seq<u8>,
)
    requires
        writing::append_all(codec, s, path, entries).0 is None,
        ordinary_keys(codec, entries),
        unnamed_from(codec, entries, 0, key),
        !names::about_ttl(key),
    ensures
        same_entry(s.tree, writing::append_all(codec, s, path, entries).1.tree, key),
    decreases entries.len(),
{
    if entries.len() > 0 {
        let front = entries.drop_last();
        let n = entries.len() - 1;
        let mid = writing::append_all(codec, s, path, front).1;
        assert(entries[n] == entries.last());
        lemma_front(codec, entries, 0, key);
        law_ordered_input_leaves_the_rest(codec, s, path, front, key);
        let k = codec.key_bytes(entries[n].0)->0;
        let v = codec.value_bytes(entries[n].1)->0;
        lemma_inserted(mid, path, k, v, None, key);
    }
}

/// Keys that are taken out together are all gone, and every other key is as it
/// was.
pub proof fn law_remove_many_takes_every_entry<K, V, C: KeyCodec<K> + ValueCodec<V>>(
    codec: C,
    s: Space,
    path: Seq<Seq<u8>>,
    keys: Seq<K>,
    key: Seq<u8>,
)
    requires
        writing::take_all::<K, V, C>(codec, s, path, keys).0 is None,
        forall|i: int|
            0 <= i < keys.len() ==> (codec.key_bytes(#[trigger] keys[i]) matches Some(k)
                ==> !names::about_ttl(k)),
        !names::about_ttl(key),
    ensures
        ({
            let after = writing::take_all::<K, V, C>(codec, s, path, keys).1.tree;
            if exists|i: int| 0 <= i < keys.len() && codec.key_bytes(#[trigger] keys[i]) == Some(key) {
                tree::value_of(after, key) is None
            } else {
                same_entry(s.tree, after, key)
            }
        }),
        forall|i: int| 0 <= i < keys.len() ==> codec.key_bytes(#[trigger] keys[i]) is Some,
    decreases keys.len(),
{
    if keys.len() > 0 {
        let front = keys.drop_last();
        let n = keys.len() - 1;
        let mid = writing::take_all::<K, V, C>(codec, s, path, front).1;
        let after = writing::take_all::<K, V, C>(codec, s, path, keys).1;
        assert(keys[n] == keys.last());
        assert forall|i: int| 0 <= i < front.len() implies #[trigger] front[i] == keys[i] by {}
        law_remove_many_takes_every_entry::<K, V, C>(codec, s, path, front, key);
        assert forall|i: int| 0 <= i < keys.len() implies codec.key_bytes(
            #[trigger] keys[i],
        ) is Some by {
            if i < n {
                assert(codec.key_bytes(front[i]) is Some);
            }
        }
        let k = codec.key_bytes(keys[n])->0;
        if tree::value_of(mid.tree, k) is Some {
            lemma_removed(mid, path, k, key);
        }
        if exists|i: int| 0 <= i < keys.len() && codec.key_bytes(#[trigger] keys[i]) == Some(key) {
            let i = choose|i: int|
                0 <= i < keys.len() && codec.key_bytes(#[trigger] keys[i]) == Some(key);
            if i < n {
                assert(codec.key_bytes(front[i]) == Some(key));
            }
        } else {
            assert(codec.key_bytes(keys[n]) != Some(key));
            if exists|i: int|
                0 <= i < front.len() && codec.key_bytes(#[trigger] front[i]) == Some(key) {
                let i = choose|i: int|
                    0 <= i < front.len() && codec.key_bytes(#[trigger] front[i]) == Some(key);
                assert(codec.key_bytes(keys[i]) == Some(key));
            }
        }
    }
}

/// Whether a key that is read from bytes is written as the same bytes.
pub open spec fn faithful<K, C: KeyCodec<K>>(codec: C, s: Seq<u8>) -> bool {
    forall|key: K| #[trigger] codec.reads_key(s, key) ==> codec.key_bytes(key) == Some(s)
}

/// The entry that is taken out of a collection is handed back and is there no
/// more, and no other entry is touched.
pub proof fn law_pop_takes_what_was_found<K, V, C: KeyCodec<K> + ValueCodec<V>>(
    codec: C,
    s: Space,
    path: Seq<Seq<u8>>,
    found: (Seq<u8>, Seq<u8>),
    entry: (K, V),
    after: Space,
    other: Seq<u8>,
)
    requires
        update::popped(
            codec,
            s,
            path,
            Found::Pair(found.0, found.1),
            Ok::<Option<(K, V)>, CodecError>(Some(entry)),
            after,
        ),
        faithful::<K, C>(codec, found.0),
        !names::about_ttl(found.0),
        !names::about_ttl(other),
    ensures
        codec.reads_key(found.0, entry.0),
        codec.reads_value(found.1, entry.1),
        tree::value_of(after.tree, found.0) is None,
        other != found.0 ==> same_entry(s.tree, after.tree, other),
{
    let taken = choose|taken: Option<V>|
        #[trigger] writing::take_told(
            codec,
            s,
            path,
            entry.0,
            Ok::<Option<V>, CodecError>(taken),
            after,
        );
    law_remove_takes_the_entry(codec, s, path, entry.0, taken, after, other);
}

/// A removal of gathered entries counts them, leaves none of them, and touches
/// no other entry.
pub proof fn law_sweep_takes_what_was_gathered<K, V, C: KeyCodec<K> + ValueCodec<V>>(
    codec: C,
    s: Space,
    path: Seq<Seq<u8>>,
    pairs: Seq<(Seq<u8>, Seq<u8>)>,
    n: usize,
    after: Space,
    key: Seq<u8>,
)
    requires
        writing::swept::<K, V, C>(
            codec,
            s,
            path,
            (pairs, Stop::End),
            Ok::<usize, CodecError>(n),
            after,
        ),
        forall|i: int|
            0 <= i < pairs.len() ==> faithful::<K, C>(codec, (#[trigger] pairs[i]).0)
                && !names::about_ttl(pairs[i].0),
        !names::about_ttl(key),
    ensures
        n == pairs.len(),
        if exists|i: int| 0 <= i < pairs.len() && (#[trigger] pairs[i]).0 == key {
            tree::value_of(after.tree, key) is None
        } else {
            same_entry(s.tree, after.tree, key)
        },
{
    let keys = choose|keys: Seq<K>|
        writing::keys_read(codec, pairs, keys) && #[trigger] writing::take_all::<K, V, C>(
            codec,
            s,
            path,
            keys,
        ) == (None::<Refusal>, after);
    assert forall|i: int| 0 <= i < keys.len() implies codec.key_bytes(#[trigger] keys[i]) == Some(
        pairs[i].0,
    ) by {
        assert(codec.reads_key(pairs[i].0, keys[i]));
    }
    law_remove_many_takes_every_entry::<K, V, C>(codec, s, path, keys, key);
    if exists|i: int| 0 <= i < pairs.len() && (#[trigger] pairs[i]).0 == key {
        let i = choose|i: int| 0 <= i < pairs.len() && (#[trigger] pairs[i]).0 == key;
        assert(codec.key_bytes(keys[i]) == Some(key));
    } else if exists|i: int| 0 <= i < keys.len() && codec.key_bytes(#[trigger] keys[i]) == Some(key) {
        let i = choose|i: int| 0 <= i < keys.len() && codec.key_bytes(#[trigger] keys[i]) == Some(
            key,
        );
        assert(pairs[i].0 == key);
    }
}

/// What is read under a key is its value while that is live, and nothing
/// otherwise.
pub proof fn law_get_reads_the_live_value<K, V, C: KeyCodec<K> + ValueCodec<V>>(
    codec: C,
    t: Tree,
    key: K,
    now: u64,
    value: Option<V>,
)
    requires
        collection::got(codec, t, key, now, Ok::<Option<V>, CodecError>(value)),
    ensures
        codec.key_bytes(key) matches Some(k) && match ttl::expires(t, k) {
            Ok(None) => reads(codec, tree::value_of(t, k), value),
            Ok(Some(deadline)) => if now < deadline {
                reads(codec, tree::value_of(t, k), value)
            } else {
                value is None
            },
            Err(_) => false,
        },
{
}

/// Replacing a value leaves the new one, without a deadline, or nothing, and
/// touches no other entry.
pub proof fn law_update_leaves_the_new_value(
    s: Space,
    path: Seq<Seq<u8>>,
    key: Seq<u8>,
    value: Option<Seq<u8>>,
    other: Seq<u8>,
)
    requires
        ttl::updated(s, path, key, value).0 is Ok,
        !names::about_ttl(key),
        !names::about_ttl(other),
    ensures
        tree::value_of(ttl::updated(s, path, key, value).1.tree, key) == value,
        value is Some || tree::value_of(s.tree, key) is Some ==> ttl::expires(
            ttl::updated(s, path, key, value).1.tree,
            key,
        ) == Ok::<Option<u64>, Error>(None),
        other != key ==> same_entry(s.tree, ttl::updated(s, path, key, value).1.tree, other),
{
    match value {
        Some(v) => lemma_inserted(s, path, key, v, None, other),
        None => if tree::value_of(s.tree, key) is Some {
            lemma_removed(s, path, key, other);
        },
    }
}

} // verus!
