//! What holds of single and of several writes to a bucket.

use crate::api::atomic;
use crate::api::bucket::{self, Space};
use crate::api::changes::{self, ChangeOperation, ChangeSetView, ChangeView, SubscriptionView};
use crate::api::changes::{TrackerView, WatchError, MAX_CHANGES, MAX_CHANGE_BYTES};
use crate::api::cursor;
use crate::api::map::Keys;
use crate::api::names;
use crate::api::tree::{self, Item, Node, Tree};
use crate::api::tx;
use crate::bytes;
use crate::data::DataView;
use crate::error::Error;
use vstd::prelude::*;

verus! {

/// Whether two buckets hold the same under a key.
pub open spec fn same_under(a: Tree, b: Tree, key: Seq<u8>) -> bool {
    a.items.contains_key(key) == b.items.contains_key(key) && (a.items.contains_key(key)
        ==> a.items[key] == b.items[key])
}

/// Storing a value fails just where a nested bucket has the key, gives back the
/// value that it replaces, and touches no other key.
pub proof fn law_put_replaces_one_value(
    s: Space,
    path: Seq<Seq<u8>>,
    key: Seq<u8>,
    value: Seq<u8>,
    other: Seq<u8>,
)
    requires
        other != key,
    ensures
        ({
            let (r, after) = bucket::put(s, path, key, value);
            &&& r is Err <==> s.tree.items.contains_key(key) && s.tree.items[key] is Bucket
            &&& r matches Ok(before) ==> after.tree.items.contains_key(key)
                && after.tree.items[key] == Item::Value(value) && match before {
                Some(was) => s.tree.items.contains_key(key) && s.tree.items[key] == Item::Value(
                    was,
                ),
                None => !s.tree.items.contains_key(key),
            }
            &&& same_under(after.tree, s.tree, other)
        }),
{
}

/// Deleting a pair gives its value back, fails just where there is none, and
/// touches no other key.
pub proof fn law_delete_takes_one_value(
    s: Space,
    path: Seq<Seq<u8>>,
    key: Seq<u8>,
    other: Seq<u8>,
)
    requires
        other != key,
    ensures
        ({
            let (r, after) = bucket::delete(s, path, key);
            &&& match r {
                Ok(value) => s.tree.items.contains_key(key) && s.tree.items[key] == Item::Value(
                    value,
                ) && !after.tree.items.contains_key(key),
                Err(e) => after == s && if s.tree.items.contains_key(key) {
                    s.tree.items[key] is Bucket && e == Error::IncompatibleValue
                } else {
                    e == Error::KeyValueMissing
                },
            }
            &&& same_under(after.tree, s.tree, other)
        }),
{
}

/// A bucket is created empty, where nothing has its name, and is gone with all
/// that it holds once it is deleted; no other key is touched.
pub proof fn law_buckets_come_and_go(
    s: Space,
    path: Seq<Seq<u8>>,
    name: Seq<u8>,
    other: Seq<u8>,
)
    requires
        other != name,
    ensures
        ({
            let (r, after) = bucket::create(s, path, name);
            &&& r is Ok <==> !s.tree.items.contains_key(name)
            &&& r is Ok ==> after.tree.items.contains_key(name) && (
            after.tree.items[name] matches Item::Bucket(made) && made.items == Map::<
                Seq<u8>,
                Item,
            >::empty() && made.next_int == 0)
            &&& r matches Err(e) ==> after == s && (e == Error::BucketExists
                <==> s.tree.items[name] is Bucket)
            &&& same_under(after.tree, s.tree, other)
        }),
        ({
            let (r, after) = bucket::ensure(s, path, name);
            &&& r is Err <==> s.tree.items.contains_key(name) && s.tree.items[name] is Value
            &&& s.tree.items.contains_key(name) ==> after == s
            &&& !s.tree.items.contains_key(name) ==> after == bucket::create(s, path, name).1
        }),
        ({
            let (r, after) = bucket::discard(s, path, name);
            &&& r is Ok <==> s.tree.items.contains_key(name) && s.tree.items[name] is Bucket
            &&& r is Ok ==> !after.tree.items.contains_key(name)
            &&& r matches Err(e) ==> after == s && (e == Error::BucketMissing
                <==> !s.tree.items.contains_key(name))
            &&& same_under(after.tree, s.tree, other)
        }),
{
}

/// Whether a change is to be told, and there is room for it.
pub open spec fn tellable(log: TrackerView, c: ChangeView) -> bool {
    &&& log.enabled
    &&& !names::unreported(c.key)
    &&& forall|i: int| 0 <= i < c.path.len() ==> !names::unreported(#[trigger] c.path[i])
    &&& log.changes.len() < MAX_CHANGES
    &&& log.bytes + changes::path_bytes(c.path) + c.key.len() <= MAX_CHANGE_BYTES
}

/// What was done to a bucket is the last change that is told, with the place,
/// the key and the kind of change; nothing is told of what was refused.
pub proof fn law_writes_are_told(
    s: Space,
    path: Seq<Seq<u8>>,
    key: Seq<u8>,
    value: Seq<u8>,
    operation: ChangeOperation,
)
    requires
        tellable(s.log, ChangeView { path, key, operation }),
    ensures
        ({
            let (r, after) = match operation {
                ChangeOperation::Put => (
                    bucket::put(s, path, key, value).0 is Ok,
                    bucket::put(s, path, key, value).1,
                ),
                ChangeOperation::Delete => (
                    bucket::delete(s, path, key).0 is Ok,
                    bucket::delete(s, path, key).1,
                ),
                ChangeOperation::BucketCreate => (
                    bucket::create(s, path, key).0 is Ok,
                    bucket::create(s, path, key).1,
                ),
                ChangeOperation::BucketDelete => (
                    bucket::discard(s, path, key).0 is Ok,
                    bucket::discard(s, path, key).1,
                ),
                ChangeOperation::Expire => (false, s),
            };
            &&& after.log.truncated == s.log.truncated
            &&& after.log.changes == if r {
                s.log.changes.push(ChangeView { path, key, operation })
            } else {
                s.log.changes
            }
        }),
{
}

/// A change set is cut only where there is no room for a change, and what keeps
/// itself out leaves no trace.
pub proof fn law_change_sets_are_cut_only_for_room(t: TrackerView, c: ChangeView)
    requires
        t.bytes <= MAX_CHANGE_BYTES,
        t.changes.len() <= MAX_CHANGES,
    ensures
        changes::recorded(t, c).truncated ==> t.truncated || t.changes.len() == MAX_CHANGES
            || t.bytes + changes::path_bytes(c.path) + c.key.len() > MAX_CHANGE_BYTES,
        t.changes.is_prefix_of(changes::recorded(t, c).changes),
        !t.enabled || names::unreported(c.key) ==> changes::recorded(t, c) == t,
        forall|i: int|
            0 <= i < c.path.len() && names::unreported(#[trigger] c.path[i])
                ==> changes::recorded(t, c) == t,
{
}

/// A watcher that listens and has room is told of a change set that holds a
/// change it asks for; one without room is cut off, and what it asked for
/// decides whether it is told at all.
pub proof fn law_watchers_with_room_are_told(s: SubscriptionView, set: ChangeSetView)
    requires
        s.connected,
    ensures
        s.listening && s.queue.len() < s.capacity ==> changes::offered(s, set).connected,
        s.listening && s.queue.len() >= s.capacity && (set.truncated || exists|i: int|
            0 <= i < set.changes.len() && changes::asks_for(s.filter, #[trigger] set.changes[i]))
            ==> changes::offered(s, set).terminal == Some(WatchError::Overflow)
            && !changes::offered(s, set).connected,
        s.listening && s.queue.len() < s.capacity && (set.truncated || exists|i: int|
            0 <= i < set.changes.len() && changes::asks_for(s.filter, #[trigger] set.changes[i]))
            ==> changes::offered(s, set).queue.len() == s.queue.len() + 1
            && changes::offered(s, set).queue.last().transaction_id == set.transaction_id
            && changes::offered(s, set).queue.last().truncated == set.truncated,
        !set.truncated && (forall|i: int|
            0 <= i < set.changes.len() ==> !changes::asks_for(s.filter, #[trigger] set.changes[i]))
            ==> changes::offered(s, set) == s,
{
    lemma_any(s.filter, set.changes);
}

/// A watcher that is cut off learns why, once it has taken what it was told
/// before, which comes in the order in which it was told.
pub proof fn law_cut_off_watchers_learn_why(s: SubscriptionView, set: ChangeSetView)
    requires
        s.connected,
        s.terminal is None,
        !changes::offered(s, set).connected,
    ensures
        changes::ended(changes::offered(s, set)) == if s.listening {
            WatchError::Overflow
        } else {
            WatchError::Disconnected
        },
        changes::offered(s, set).queue == s.queue,
        s.queue.len() > 0 ==> {
            let rest = changes::taken(s);
            &&& rest.queue.len() == s.queue.len() - 1
            &&& forall|i: int| 0 <= i < rest.queue.len() ==> #[trigger] rest.queue[i] == s.queue[i
                + 1]
            &&& rest.terminal == s.terminal
            &&& rest.connected == s.connected
            &&& rest.listening == s.listening
            &&& rest.filter == s.filter
            &&& rest.capacity == s.capacity
        },
{
}

/// Something is selected just where something is asked for.
proof fn lemma_any(f: changes::FilterView, all: Seq<ChangeView>)
    ensures
        (exists|i: int| 0 <= i < all.len() && changes::asks_for(f, #[trigger] all[i]))
            <==> changes::selected(f, all).len() > 0,
    decreases all.len(),
{
    reveal(Seq::filter);
    if all.len() > 0 {
        let front = all.drop_last();
        lemma_any(f, front);
        if exists|i: int| 0 <= i < all.len() && changes::asks_for(f, #[trigger] all[i]) {
            let i = choose|i: int| 0 <= i < all.len() && changes::asks_for(f, #[trigger] all[i]);
            if i < front.len() {
                assert(front[i] == all[i]);
            }
        }
        if exists|i: int| 0 <= i < front.len() && changes::asks_for(f, #[trigger] front[i]) {
            let i = choose|i: int|
                0 <= i < front.len() && changes::asks_for(f, #[trigger] front[i]);
            assert(all[i] == front[i]);
        }
        assert(all[all.len() - 1] == all.last());
    }
}

/// The value that a list of pairs leaves under a key: that of its last pair with
/// the key.
pub open spec fn last_given(entries: Seq<(Seq<u8>, Seq<u8>)>, i: int) -> bool {
    &&& 0 <= i < entries.len()
    &&& forall|j: int| i < j < entries.len() ==> (#[trigger] entries[j]).0 != entries[i].0
}

/// Whether a list of pairs names a key.
pub open spec fn named(entries: Seq<(Seq<u8>, Seq<u8>)>, key: Seq<u8>) -> bool {
    exists|i: int| 0 <= i < entries.len() && (#[trigger] entries[i]).0 == key
}

/// Storing several pairs stores every one of them: each key has the value of
/// its last pair, no other key is touched, and the number of pairs is counted.
/// It fails just where one of the keys is that of a nested bucket.
pub proof fn law_insert_many_stores_every_pair(
    s: Space,
    path: Seq<Seq<u8>>,
    entries: Seq<(Seq<u8>, Seq<u8>)>,
)
    ensures
        ({
            let (r, after) = crate::api::map::put_all(s, path, entries);
            &&& r is Err <==> exists|i: int|
                0 <= i < entries.len() && s.tree.items.contains_key((#[trigger] entries[i]).0)
                    && s.tree.items[entries[i].0] is Bucket
            &&& r matches Ok(n) ==> n == entries.len() && forall|i: int| #[trigger]
                last_given(entries, i) ==> tree::value_of(after.tree, entries[i].0) == Some(
                    entries[i].1,
                )
            &&& forall|key: Seq<u8>|
                !named(entries, key) ==> #[trigger] same_under(after.tree, s.tree, key)
            &&& forall|key: Seq<u8>|
                s.tree.items.contains_key(key) && s.tree.items[key] is Bucket ==> #[trigger]
                same_under(after.tree, s.tree, key)
            &&& forall|key: Seq<u8>|
                !(s.tree.items.contains_key(key) && s.tree.items[key] is Bucket) ==> !(
                #[trigger] after.tree.items.contains_key(key) && after.tree.items[key] is Bucket)
        }),
    decreases entries.len(),
{
    if entries.len() > 0 {
        let front = entries.drop_last();
        let n = entries.len() - 1;
        law_insert_many_stores_every_pair(s, path, front);
        let (r, mid) = crate::api::map::put_all(s, path, front);
        let (all, after) = crate::api::map::put_all(s, path, entries);
        assert(entries[n] == entries.last());
        assert forall|i: int| 0 <= i < front.len() implies #[trigger] front[i] == entries[i] by {}
        assert(same_under(mid.tree, s.tree, entries[n].0) || named(front, entries[n].0));
        if r is Err {
            let i = choose|i: int|
                0 <= i < front.len() && s.tree.items.contains_key((#[trigger] front[i]).0)
                    && s.tree.items[front[i].0] is Bucket;
            assert(entries[i] == front[i]);
        } else {
            if s.tree.items.contains_key(entries[n].0) && s.tree.items[entries[n].0] is Bucket {
                assert(same_under(mid.tree, s.tree, entries[n].0));
            } else {
                assert(!(mid.tree.items.contains_key(entries[n].0)
                    && mid.tree.items[entries[n].0] is Bucket));
            }
            if all is Err {
                assert(s.tree.items.contains_key(entries[n].0));
            }
            if exists|i: int|
                0 <= i < entries.len() && s.tree.items.contains_key((#[trigger] entries[i]).0)
                    && s.tree.items[entries[i].0] is Bucket {
                let i = choose|i: int|
                    0 <= i < entries.len() && s.tree.items.contains_key((#[trigger] entries[i]).0)
                        && s.tree.items[entries[i].0] is Bucket;
                if i < n {
                    assert(front[i] == entries[i]);
                }
            }
            if all is Ok {
                assert forall|i: int| #[trigger] last_given(entries, i) implies tree::value_of(
                    after.tree,
                    entries[i].0,
                ) == Some(entries[i].1) by {
                    if i < n {
                        assert(entries[n].0 != entries[i].0);
                        assert forall|j: int| i < j < front.len() implies (#[trigger] front[j]).0
                            != front[i].0 by {
                            assert(front[j] == entries[j]);
                        }
                        assert(last_given(front, i));
                    }
                }
            }
        }
        assert forall|key: Seq<u8>| !named(entries, key) implies #[trigger] same_under(
            after.tree,
            s.tree,
            key,
        ) by {
            assert(entries[n].0 != key);
            if named(front, key) {
                let i = choose|i: int| 0 <= i < front.len() && (#[trigger] front[i]).0 == key;
                assert(entries[i].0 == key);
            }
            assert(same_under(mid.tree, s.tree, key));
        }
        assert forall|key: Seq<u8>|
            s.tree.items.contains_key(key) && s.tree.items[key] is Bucket implies #[trigger]
            same_under(after.tree, s.tree, key) by {
            assert(same_under(mid.tree, s.tree, key));
        }
        assert forall|key: Seq<u8>|
            !(s.tree.items.contains_key(key) && s.tree.items[key] is Bucket) implies !(
        #[trigger] after.tree.items.contains_key(key) && after.tree.items[key] is Bucket) by {
            assert(mid.tree.items.contains_key(key) || !mid.tree.items.contains_key(key));
        }
    }
}

/// The keys of a list that have values.
pub open spec fn with_values(t: Tree, keys: Seq<Seq<u8>>) -> Set<Seq<u8>> {
    Set::new(|k: Seq<u8>| keys.contains(k) && tree::value_of(t, k) is Some)
}

/// Removing several values takes every one of them that there is, counts each
/// once, and touches no other key.
pub proof fn law_remove_many_takes_every_value(
    s: Space,
    path: Seq<Seq<u8>>,
    keys: Seq<Seq<u8>>,
)
    ensures
        ({
            let (n, after) = crate::api::map::remove_all(s, path, keys);
            &&& with_values(s.tree, keys).finite()
            &&& n == with_values(s.tree, keys).len()
            &&& forall|k: Seq<u8>|
                with_values(s.tree, keys).contains(k) ==> !(
                #[trigger] after.tree.items.contains_key(k))
            &&& forall|k: Seq<u8>|
                !with_values(s.tree, keys).contains(k) ==> #[trigger] same_under(
                    after.tree,
                    s.tree,
                    k,
                )
        }),
    decreases keys.len(),
{
    if keys.len() == 0 {
        assert(with_values(s.tree, keys) =~= Set::<Seq<u8>>::empty());
    } else {
        let front = keys.drop_last();
        let key = keys.last();
        law_remove_many_takes_every_value(s, path, front);
        let mid = crate::api::map::remove_all(s, path, front).1;
        let was = with_values(s.tree, front);
        let all = with_values(s.tree, keys);
        assert forall|k: Seq<u8>| keys.contains(k) <==> front.contains(k) || k == key by {
            if front.contains(k) {
                let i = choose|i: int| 0 <= i < front.len() && front[i] == k;
                assert(keys[i] == k);
            }
            if keys.contains(k) {
                let i = choose|i: int| 0 <= i < keys.len() && keys[i] == k;
                if i < front.len() {
                    assert(front[i] == k);
                }
            }
            assert(keys[keys.len() - 1] == key);
        }
        assert(was.contains(key) ==> !mid.tree.items.contains_key(key));
        assert(!was.contains(key) ==> same_under(mid.tree, s.tree, key));
        let after = crate::api::map::remove_all(s, path, keys).1;
        if tree::value_of(mid.tree, key) is Some {
            assert(all =~= was.insert(key));
        } else {
            assert(all =~= was);
        }
        assert forall|k: Seq<u8>| !all.contains(k) implies #[trigger] same_under(
            after.tree,
            s.tree,
            k,
        ) by {
            assert(same_under(mid.tree, s.tree, k));
        }
        assert forall|k: Seq<u8>| all.contains(k) implies !(
        #[trigger] after.tree.items.contains_key(k)) by {
            if was.contains(k) {
                assert(!mid.tree.items.contains_key(k));
            }
        }
    }
}

/// Removing the pairs under a prefix takes those whose keys begin with it, and
/// touches no other key.
pub proof fn law_delete_prefix_takes_the_prefix(t: Tree, prefix: &[u8], tail: Seq<u8>, other: Seq<u8>)
    requires
        other.len() < prefix@.len() || other.take(prefix@.len() as int) != prefix@,
    ensures
        tree::value_of(crate::api::map::thinned(t, Keys::Prefix(prefix)), prefix@ + tail) is None,
        same_under(crate::api::map::thinned(t, Keys::Prefix(prefix)), t, other),
        tree::child_of(t, prefix@ + tail) is Ok ==> same_under(
            crate::api::map::thinned(t, Keys::Prefix(prefix)),
            t,
            prefix@ + tail,
        ),
{
    assert(prefix@.is_prefix_of(prefix@ + tail)) by {
        assert((prefix@ + tail).subrange(0, prefix@.len() as int) =~= prefix@);
    }
    if prefix@.is_prefix_of(other) {
        assert(other.take(prefix@.len() as int) =~= prefix@);
    }
}

/// The keys of a bucket's pairs that a removal takes.
pub open spec fn doomed(t: Tree, keys: Keys<'_>) -> Set<Seq<u8>> {
    Set::new(
        |k: Seq<u8>|
            t.items.contains_key(k) && !crate::api::map::thinned(t, keys).items.contains_key(k),
    )
}

/// The pairs that a removal takes are counted, each once, and told in key order.
pub proof fn law_removals_are_counted(node: Node, keys: Keys<'_>)
    requires
        node.wf(),
    ensures
        ({
            let told = crate::api::map::picked(cursor::data_in(node@), keys);
            &&& told.to_set() == doomed(node@, keys)
            &&& told.len() == doomed(node@, keys).len()
            &&& forall|i: int, j: int|
                0 <= i < j < told.len() ==> bytes::lex_lt(#[trigger] told[i], #[trigger] told[j])
        }),
{
    let t = node@;
    let l = cursor::data_in(t);
    let told = crate::api::map::picked(l, keys);
    crate::api::map::lemma_data_in_order(node);
    crate::api::map::lemma_picked(l, keys);
    lemma_picked_order(l, keys);
    assert(told.no_duplicates()) by {
        assert forall|i: int, j: int| 0 <= i < j < told.len() implies told[i] != told[j] by {
            assert(bytes::lex_lt(told[i], told[j]));
            bytes::lemma_lex_irreflexive(told[i]);
        }
    }
    told.unique_seq_to_set();
    assert forall|k: Seq<u8>| #[trigger] told.to_set().contains(k) <==> doomed(t, keys).contains(
        k,
    ) by {
        if told.contains(k) {
            let j = choose|j: int| 0 <= j < told.len() && told[j] == k;
            assert(crate::api::map::stands(l, keys, told[j]));
            let i = choose|i: int|
                0 <= i < l.len() && (#[trigger] l[i]) is KeyValue && l[i].key() == k && crate::api::map::meant(
                    keys,
                    k,
                );
            crate::api::map::lemma_entry(t, l, node, i);
        }
        if doomed(t, keys).contains(k) {
            crate::api::map::lemma_listed_pair(node, k);
            let i = choose|i: int|
                0 <= i < l.len() && #[trigger] l[i] == cursor::data_of((k, t.items[k]));
            assert(l[i] is KeyValue && crate::api::map::meant(keys, l[i].key()));
        }
    }
    assert(told.to_set() =~= doomed(t, keys));
}

/// Keys are picked in their order.
proof fn lemma_picked_order(l: Seq<DataView>, keys: Keys<'_>)
    requires
        cursor::in_order(l),
    ensures
        forall|i: int, j: int|
            0 <= i < j < crate::api::map::picked(l, keys).len() ==> bytes::lex_lt(
                #[trigger] crate::api::map::picked(l, keys)[i],
                #[trigger] crate::api::map::picked(l, keys)[j],
            ),
    decreases l.len(),
{
    if l.len() > 0 {
        let front = l.drop_last();
        let p = crate::api::map::picked(front, keys);
        let q = crate::api::map::picked(l, keys);
        assert(cursor::in_order(front)) by {
            assert forall|i: int, j: int| 0 <= i < j < front.len() implies bytes::lex_lt(
                (#[trigger] front[i]).key(),
                (#[trigger] front[j]).key(),
            ) by {
                assert(bytes::lex_lt(l[i].key(), l[j].key()));
            }
        }
        lemma_picked_order(front, keys);
        crate::api::map::lemma_picked(front, keys);
        assert forall|i: int, j: int| 0 <= i < j < q.len() implies bytes::lex_lt(
            #[trigger] q[i],
            #[trigger] q[j],
        ) by {
            assert(q[i] == p[i]);
            if j < p.len() {
                assert(q[j] == p[j]);
            } else {
                assert(crate::api::map::stands(front, keys, p[i]));
                let a = choose|a: int|
                    0 <= a < front.len() && (#[trigger] front[a]) is KeyValue && front[a].key()
                        == p[i] && crate::api::map::meant(keys, p[i]);
                assert(l[a] == front[a]);
                assert(bytes::lex_lt(l[a].key(), l[l.len() - 1].key()));
            }
        }
    }
}

/// The first pair is the one with the least key that has a value.
pub proof fn law_first_pair_has_the_least_key(node: Node)
    requires
        node.wf(),
    ensures
        ({
            let l = cursor::data_in(node@);
            match cursor::first_pair(l) {
                Some(i) => 0 <= i < l.len() && l[i] is KeyValue && tree::value_of(
                    node@,
                    l[i].key(),
                ) == Some(l[i]->KeyValue_1) && forall|k: Seq<u8>| #[trigger]
                    tree::value_of(node@, k) is Some ==> bytes::lex_le(l[i].key(), k),
                None => forall|k: Seq<u8>| #[trigger] tree::value_of(node@, k) is None,
            }
        }),
{
    let t = node@;
    let l = cursor::data_in(t);
    crate::api::map::lemma_first_pair(l);
    crate::api::map::lemma_data_in_order(node);
    assert forall|k: Seq<u8>| #[trigger] tree::value_of(t, k) is Some implies (
    cursor::first_pair(l) matches Some(i) && bytes::lex_le(l[i].key(), k)) by {
        crate::api::map::lemma_listed_pair(node, k);
        let j = choose|j: int| 0 <= j < l.len() && #[trigger] l[j] == cursor::data_of((k, t.items[k]));
        assert(l[j] is KeyValue);
        let i = cursor::first_pair(l)->Some_0;
        if i < j {
            assert(bytes::lex_lt(l[i].key(), l[j].key()));
        }
    }
    match cursor::first_pair(l) {
        Some(i) => crate::api::map::lemma_entry(t, l, node, i),
        None => {},
    }
}

/// A conditional write fails just where a nested bucket has the key, and touches
/// no other key.
pub proof fn law_conditional_writes_touch_one_key(
    s: Space,
    path: Seq<Seq<u8>>,
    key: Seq<u8>,
    expected: Option<Seq<u8>>,
    value: Seq<u8>,
    other: Seq<u8>,
)
    requires
        other != key,
    ensures
        ({
            let (r, after) = atomic::exchange(s, path, key, expected, value);
            &&& r is Err <==> s.tree.items.contains_key(key) && s.tree.items[key] is Bucket
            &&& same_under(after.tree, s.tree, other)
            &&& r matches Ok(a) ==> tree::value_of(after.tree, key) == if tree::value_of(
                s.tree,
                key,
            ) == expected {
                Some(value)
            } else {
                tree::value_of(s.tree, key)
            }
        }),
        ({
            let (r, after) = atomic::insertion(s, path, key, value);
            &&& r is Err <==> s.tree.items.contains_key(key) && s.tree.items[key] is Bucket
            &&& same_under(after.tree, s.tree, other)
            &&& r matches Ok(a) ==> (a.applied <==> !s.tree.items.contains_key(key))
                && tree::value_of(after.tree, key) == if s.tree.items.contains_key(key) {
                tree::value_of(s.tree, key)
            } else {
                Some(value)
            }
        }),
        ({
            let (r, after) = atomic::removal(s, path, key, value);
            &&& r is Err <==> s.tree.items.contains_key(key) && s.tree.items[key] is Bucket
            &&& same_under(after.tree, s.tree, other)
            &&& r matches Ok(a) ==> tree::value_of(after.tree, key) == if tree::value_of(
                s.tree,
                key,
            ) == Some(value) {
                None
            } else {
                tree::value_of(s.tree, key)
            }
        }),
{
}

/// The root buckets are told, each once and in the order of their names.
pub proof fn law_root_buckets_are_told(node: Node)
    requires
        node.wf(),
    ensures
        ({
            let told = tx::root_names(cursor::data_in(node@));
            &&& forall|name: Seq<u8>|
                told.contains(name) <==> #[trigger] tree::child_of(node@, name) is Ok
            &&& forall|i: int, j: int|
                0 <= i < j < told.len() ==> bytes::lex_lt(#[trigger] told[i], #[trigger] told[j])
        }),
{
    let t = node@;
    let l = cursor::data_in(t);
    let told = tx::root_names(l);
    crate::api::map::lemma_data_in_order(node);
    lemma_root_names(l);
    assert forall|name: Seq<u8>| told.contains(name) <==> #[trigger] tree::child_of(
        t,
        name,
    ) is Ok by {
        if told.contains(name) {
            let j = choose|j: int| 0 <= j < told.len() && told[j] == name;
            assert(is_bucket_of(l, told[j]));
            let i = choose|i: int|
                0 <= i < l.len() && (#[trigger] l[i]) is Bucket && l[i].key() == name;
            crate::api::map::lemma_entry(t, l, node, i);
        }
        if tree::child_of(t, name) is Ok {
            crate::api::map::lemma_listed_pair(node, name);
            let i = choose|i: int|
                0 <= i < l.len() && #[trigger] l[i] == cursor::data_of((name, t.items[name]));
            assert(l[i] is Bucket && l[i].key() == name);
        }
    }
}

/// Whether a list has a bucket of a name.
spec fn is_bucket_of(l: Seq<DataView>, name: Seq<u8>) -> bool {
    exists|i: int| 0 <= i < l.len() && (#[trigger] l[i]) is Bucket && l[i].key() == name
}

proof fn lemma_root_names(l: Seq<DataView>)
    requires
        cursor::in_order(l),
    ensures
        ({
            let told = tx::root_names(l);
            &&& forall|i: int|
                0 <= i < l.len() && (#[trigger] l[i]) is Bucket ==> told.contains(l[i].key())
            &&& forall|j: int| 0 <= j < told.len() ==> is_bucket_of(l, #[trigger] told[j])
            &&& forall|i: int, j: int|
                0 <= i < j < told.len() ==> bytes::lex_lt(#[trigger] told[i], #[trigger] told[j])
        }),
    decreases l.len(),
{
    if l.len() > 0 {
        let front = l.drop_last();
        let n = l.len() - 1;
        let p = tx::root_names(front);
        let told = tx::root_names(l);
        assert(cursor::in_order(front)) by {
            assert forall|i: int, j: int| 0 <= i < j < front.len() implies bytes::lex_lt(
                (#[trigger] front[i]).key(),
                (#[trigger] front[j]).key(),
            ) by {
                assert(bytes::lex_lt(l[i].key(), l[j].key()));
            }
        }
        lemma_root_names(front);
        assert forall|i: int| 0 <= i < l.len() && (#[trigger] l[i]) is Bucket implies told.contains(
            l[i].key(),
        ) by {
            if i < n {
                assert(front[i] == l[i]);
                let j = choose|j: int| 0 <= j < p.len() && p[j] == l[i].key();
                assert(told[j] == l[i].key());
            } else {
                assert(told[told.len() - 1] == l[i].key());
            }
        }
        assert forall|j: int| 0 <= j < told.len() implies is_bucket_of(l, #[trigger] told[j]) by {
            if j < p.len() {
                assert(is_bucket_of(front, p[j]));
                let i = choose|i: int|
                    0 <= i < front.len() && (#[trigger] front[i]) is Bucket && front[i].key()
                        == p[j];
                assert(l[i] == front[i]);
            } else {
                assert(l[n].key() == told[j]);
            }
        }
        assert forall|i: int, j: int| 0 <= i < j < told.len() implies bytes::lex_lt(
            #[trigger] told[i],
            #[trigger] told[j],
        ) by {
            assert(told[i] == p[i]);
            if j < p.len() {
                assert(told[j] == p[j]);
            } else {
                assert(is_bucket_of(front, p[i]));
                let a = choose|a: int|
                    0 <= a < front.len() && (#[trigger] front[a]) is Bucket && front[a].key()
                        == p[i];
                assert(bytes::lex_lt(l[a].key(), l[n].key()));
            }
        }
    }
}

} // verus!
