//! What holds of removing expired keys at every depth.

use crate::api::bucket::Space;
use crate::api::cursor;
use crate::api::merge_deep_laws::ordinary;
use crate::api::merge_laws::alike;
use crate::api::names;
use crate::api::sweep;
use crate::api::tree::{self, Item, Tree};
use crate::api::ttl;
use crate::api::ttl_laws::{self, list, lookup, sorted};
use crate::assoc;
use crate::bytemap;
use crate::bytes;
use crate::data::DataView;
use crate::error::Error;
use crate::storage::pack_laws::listable;
use vstd::prelude::*;

verus! {

/// Whether a key of a bucket has a deadline that has come.
pub open spec fn due_key(t: Tree, k: Seq<u8>, now: u64) -> bool {
    ttl::expires(t, k) matches Ok(Some(deadline)) && deadline <= now
}

/// The keys of a bucket whose deadlines have come.
pub open spec fn due_keys(t: Tree, now: u64) -> Set<Seq<u8>> {
    Set::new(|k: Seq<u8>| due_key(t, k, now))
}

/// Whether deadlines of a bucket stand under ordinary keys, which are not those
/// of nested buckets.
pub open spec fn well_timed(t: Tree) -> bool {
    forall|k: Seq<u8>| #[trigger]
        lookup(t).items.contains_key(k) ==> !names::about_ttl(k) && (
        lookup(t).items[k] matches Item::Value(v) && v.len() == 8) && !(t.items.contains_key(k)
            && t.items[k] is Bucket)
}

/// Whether the deadlines of a bucket are in order: there are none, or they are
/// listed, or they are not listed yet.
pub open spec fn timed(t: Tree) -> bool {
    ||| tree::child_of(t, names::ttl_name()) == Err::<Tree, Error>(Error::BucketMissing)
    ||| {
        &&& tree::child_of(t, names::ttl_name()) is Ok
        &&& well_timed(t)
        &&& {
            ||| tree::child_of(t, names::deadlines_name()) == Err::<Tree, Error>(
                Error::BucketMissing,
            )
            ||| tree::child_of(t, names::deadlines_name()) is Ok && ttl_laws::tallies(
                lookup(t),
                list(t),
            )
        }
    }
}

/// Whether the buckets of deadlines in a bucket can be listed.
spec fn times_sorted(t: Tree) -> bool {
    &&& tree::child_of(t, names::ttl_name()) is Ok ==> sorted(lookup(t))
    &&& tree::child_of(t, names::deadlines_name()) is Ok ==> sorted(list(t))
}

/// What removing expired keys from one bucket comes to.
spec fn purge_right(t: Tree, r: Result<nat, Error>, after: Tree, now: u64, limit: nat) -> bool {
    let taken = due_keys(t, now).difference(due_keys(after, now));
    &&& r is Ok
    &&& r->Ok_0 <= limit
    &&& due_keys(after, now).subset_of(due_keys(t, now))
    &&& taken.finite()
    &&& taken.len() == r->Ok_0
    &&& r->Ok_0 < limit ==> due_keys(after, now) == Set::<Seq<u8>>::empty()
    &&& forall|k: Seq<u8>| #[trigger]
        taken.contains(k) ==> !names::about_ttl(k) && !(t.items.contains_key(k)
            && t.items[k] is Bucket)
    &&& forall|k: Seq<u8>|
        !names::about_ttl(k) ==> if #[trigger] taken.contains(k) {
            !after.items.contains_key(k) && ttl::expires(after, k) == Ok::<Option<u64>, Error>(None)
        } else {
            alike(t, after, k) && ttl::expires(after, k) == ttl::expires(t, k)
        }
}

/// Whether a key has a deadline that has come, by the deadlines under keys.
spec fn come(times: Tree, k: Seq<u8>, now: u64) -> bool {
    tree::value_of(times, k) matches Some(v) && bytes::be_nat(v) as u64 <= now
}

/// The deadlines before and after some keys were taken off their list.
spec fn taken_off(
    times: Tree,
    order: Tree,
    left: Tree,
    order_left: Tree,
    keys: Seq<Seq<u8>>,
) -> bool {
    &&& ttl_laws::tallies(times, order)
    &&& ttl_laws::tallies(left, order_left)
    &&& forall|i: int| 0 <= i < keys.len() ==> order.items.contains_key(#[trigger] keys[i])
    &&& forall|i: int, j: int| 0 <= i < j < keys.len() ==> (#[trigger] keys[i]) != (
    #[trigger] keys[j])
    &&& forall|q: Seq<u8>| #[trigger]
        order_left.items.contains_key(q) <==> order.items.contains_key(q) && !keys.contains(q)
    &&& forall|k: Seq<u8>| #[trigger]
        left.items.contains_key(k) ==> times.items.contains_key(k) && left.items[k]
            == times.items[k]
}

/// A key keeps its deadline just if it was not taken off the list.
proof fn lemma_keeps_deadline(
    times: Tree,
    order: Tree,
    left: Tree,
    order_left: Tree,
    keys: Seq<Seq<u8>>,
    k: Seq<u8>,
)
    requires
        taken_off(times, order, left, order_left, keys),
        times.items.contains_key(k),
    ensures
        ({
            let q = times.items[k]->Value_0 + k;
            &&& q.take(8) == times.items[k]->Value_0
            &&& q.skip(8) == k
            &&& order.items.contains_key(q)
            &&& left.items.contains_key(k) <==> !keys.contains(q)
        }),
{
    let v = times.items[k]->Value_0;
    let q = v + k;
    assert(q.take(8) =~= v);
    assert(q.skip(8) =~= k);
    assert(tree::value_of(times, q.skip(8)) == Some(q.take(8)));
    assert(order.items.contains_key(q));
    assert(order_left.items.contains_key(q) <==> order.items.contains_key(q) && !keys.contains(q));
    if left.items.contains_key(k) {
        assert(tree::value_of(left, q.skip(8)) == Some(q.take(8)));
        assert(order_left.items.contains_key(q));
    }
    if order_left.items.contains_key(q) {
        assert(tree::value_of(left, q.skip(8)) == Some(q.take(8)));
    }
}

/// The keys that lost their deadlines are those that were taken off the list.
proof fn lemma_taken_keys(
    times: Tree,
    order: Tree,
    left: Tree,
    order_left: Tree,
    keys: Seq<Seq<u8>>,
    now: u64,
)
    requires
        taken_off(times, order, left, order_left, keys),
        forall|i: int| 0 <= i < keys.len() ==> bytes::be_nat((#[trigger] keys[i]).take(8)) as u64
            <= now,
    ensures
        ({
            let taken = Set::new(|k: Seq<u8>| come(times, k, now) && !come(left, k, now));
            &&& taken.finite()
            &&& taken.len() == keys.len()
            &&& forall|k: Seq<u8>| #[trigger]
                taken.contains(k) <==> times.items.contains_key(k) && !left.items.contains_key(k)
        }),
{
    let taken = Set::new(|k: Seq<u8>| come(times, k, now) && !come(left, k, now));
    let gone = Seq::new(keys.len(), |i: int| keys[i].skip(8));
    assert forall|k: Seq<u8>| (#[trigger] taken.contains(k) <==> times.items.contains_key(k)
        && !left.items.contains_key(k)) && (taken.contains(k) <==> gone.contains(k)) by {
        if times.items.contains_key(k) {
            lemma_keeps_deadline(times, order, left, order_left, keys, k);
            let q = times.items[k]->Value_0 + k;
            if !left.items.contains_key(k) {
                let i = choose|i: int| 0 <= i < keys.len() && keys[i] == q;
                assert(gone[i] == k);
                assert(bytes::be_nat(keys[i].take(8)) as u64 <= now);
            }
        }
        if gone.contains(k) {
            let i = choose|i: int| 0 <= i < gone.len() && gone[i] == k;
            let q = keys[i];
            assert(order.items.contains_key(keys[i]));
            assert(tree::value_of(times, q.skip(8)) == Some(q.take(8)));
            assert(times.items.contains_key(k));
            lemma_keeps_deadline(times, order, left, order_left, keys, k);
            assert(q =~= times.items[k]->Value_0 + k);
            assert(keys.contains(q));
        }
    }
    assert(gone.no_duplicates()) by {
        assert forall|i: int, j: int| 0 <= i < gone.len() && 0 <= j < gone.len() && i
            != j implies gone[i] != gone[j] by {
            let a = keys[i];
            let b = keys[j];
            assert(order.items.contains_key(keys[i]) && order.items.contains_key(keys[j]));
            if gone[i] == gone[j] {
                assert(tree::value_of(times, a.skip(8)) == Some(a.take(8)));
                assert(tree::value_of(times, b.skip(8)) == Some(b.take(8)));
                assert(a =~= a.take(8) + a.skip(8));
                assert(b =~= b.take(8) + b.skip(8));
            }
        }
    }
    gone.unique_seq_to_set();
    vstd::seq_lib::seq_to_set_is_finite(gone);
    assert(taken =~= gone.to_set());
}

/// Whether a key is due is told by the deadlines under keys.
proof fn lemma_due_by_times(t: Tree, k: Seq<u8>, now: u64)
    requires
        tree::child_of(t, names::ttl_name()) is Ok,
        forall|k: Seq<u8>| #[trigger]
            lookup(t).items.contains_key(k) ==> (lookup(t).items[k] matches Item::Value(v)
                && v.len() == 8),
    ensures
        due_key(t, k, now) == come(lookup(t), k, now),
        !lookup(t).items.contains_key(k) ==> ttl::expires(t, k) == Ok::<Option<u64>, Error>(None),
{
}

/// Which keys are taken when those that are due are removed.
proof fn lemma_due_removed(s: Space, path: Seq<Seq<u8>>, now: u64, limit: nat)
    requires
        ttl_laws::orderly(s.tree),
        sorted(list(s.tree)),
        limit > 0,
    ensures
        ({
            let l = cursor::data_in(list(s.tree));
            let keys = ttl::due(l, now, limit)->Ok_0;
            let (r, after) = ttl::expired_all(s, path, keys);
            let t = s.tree;
            let u = after.tree;
            &&& ttl::due(l, now, limit) is Ok
            &&& r is Ok
            &&& keys.len() <= limit
            &&& ttl_laws::orderly(u)
            &&& taken_off(lookup(t), list(t), lookup(u), list(u), keys)
            &&& forall|i: int|
                0 <= i < keys.len() ==> bytes::be_nat((#[trigger] keys[i]).take(8)) as u64 <= now
            &&& keys.len() < limit ==> forall|q: Seq<u8>| #[trigger]
                list(u).items.contains_key(q) ==> bytes::be_nat(q.take(8)) as u64 > now
            &&& forall|k: Seq<u8>|
                !names::about_ttl(k) && lookup(u).items.contains_key(k)
                    == lookup(t).items.contains_key(k) ==> #[trigger] alike(t, u, k)
            &&& forall|k: Seq<u8>|
                !names::about_ttl(k) && lookup(t).items.contains_key(k)
                    && !lookup(u).items.contains_key(k) ==> !(#[trigger] u.items.contains_key(k))
        }),
{
    let t = s.tree;
    let l = cursor::data_in(list(t));
    let keys = ttl::due(l, now, limit)->Ok_0;
    ttl_laws::lemma_list_entries(list(t));
    ttl_laws::law_due_keys_are_the_earliest(l, now, limit);
    assert forall|i: int| 0 <= i < keys.len() implies list(t).items.contains_key(
        #[trigger] keys[i],
    ) && bytes::be_nat(keys[i].take(8)) as u64 <= now by {
        assert(keys[i] == l[i].key());
    }
    assert forall|i: int, j: int| 0 <= i < j < keys.len() implies (#[trigger] keys[i]) != (
    #[trigger] keys[j]) by {
        assert(keys[i] == l[i].key());
        assert(keys[j] == l[j].key());
        assert(bytes::lex_lt(l[i].key(), l[j].key()));
        bytes::lemma_lex_irreflexive(l[i].key());
    }
    ttl_laws::lemma_expired_all(s, path, keys);
    let u = ttl::expired_all(s, path, keys).1.tree;
    if keys.len() < limit {
        assert forall|q: Seq<u8>| #[trigger] list(u).items.contains_key(q) implies bytes::be_nat(
            q.take(8),
        ) as u64 > now by {
            assert(list(t).items.contains_key(q));
            let i = choose|i: int| 0 <= i < l.len() && #[trigger] l[i].key() == q;
            if i < keys.len() {
                assert(keys[i] == q);
                assert(keys.contains(q));
            }
        }
    }
    assert forall|k: Seq<u8>|
        !names::about_ttl(k) && lookup(u).items.contains_key(k) == lookup(t).items.contains_key(
            k,
        ) implies #[trigger] alike(t, u, k) by {
        assert(u.items.contains_key(k) == t.items.contains_key(k));
    }
}

/// Removing expired keys where they are listed.
proof fn lemma_purge_listed(s: Space, path: Seq<Seq<u8>>, now: u64, limit: nat)
    requires
        tree::child_of(s.tree, names::ttl_name()) is Ok,
        tree::child_of(s.tree, names::deadlines_name()) is Ok,
        ttl_laws::tallies(lookup(s.tree), list(s.tree)),
        well_timed(s.tree),
        sorted(list(s.tree)),
        limit > 0,
    ensures
        ({
            let l = cursor::data_in(list(s.tree));
            let keys = ttl::due(l, now, limit)->Ok_0;
            let (r, after) = ttl::expired_all(s, path, keys);
            &&& ttl::due(l, now, limit) is Ok
            &&& r is Ok
            &&& purge_right(s.tree, Ok::<nat, Error>(keys.len()), after.tree, now, limit)
        }),
{
    let t = s.tree;
    let keys = ttl::due(cursor::data_in(list(t)), now, limit)->Ok_0;
    assert(ttl_laws::expirable(t));
    lemma_due_removed(s, path, now, limit);
    let u = ttl::expired_all(s, path, keys).1.tree;
    lemma_taken_keys(lookup(t), list(t), lookup(u), list(u), keys, now);
    let taken = due_keys(t, now).difference(due_keys(u, now));
    let off = Set::new(|k: Seq<u8>| come(lookup(t), k, now) && !come(lookup(u), k, now));
    assert forall|k: Seq<u8>| #[trigger] taken.contains(k) == off.contains(k) by {
        lemma_due_by_times(t, k, now);
        lemma_due_by_times(u, k, now);
    }
    assert(taken =~= off);
    assert forall|k: Seq<u8>| #[trigger] taken.contains(k) implies !names::about_ttl(k) && !(
    t.items.contains_key(k) && t.items[k] is Bucket) by {
        assert(off.contains(k));
        assert(lookup(t).items.contains_key(k));
    }
    assert forall|k: Seq<u8>| #[trigger] due_keys(u, now).contains(k) implies due_keys(
        t,
        now,
    ).contains(k) by {
        lemma_due_by_times(t, k, now);
        lemma_due_by_times(u, k, now);
        assert(lookup(u).items.contains_key(k));
    }
    if keys.len() < limit {
        assert forall|k: Seq<u8>| !(#[trigger] due_keys(u, now).contains(k)) by {
            lemma_due_by_times(u, k, now);
            if come(lookup(u), k, now) {
                assert(lookup(u).items.contains_key(k));
                lemma_keeps_deadline(lookup(t), list(t), lookup(u), list(u), keys, k);
                let q = lookup(t).items[k]->Value_0 + k;
                assert(list(u).items.contains_key(q));
            }
        }
        assert(due_keys(u, now) =~= Set::<Seq<u8>>::empty());
    }
    assert forall|k: Seq<u8>| !names::about_ttl(k) implies if #[trigger] taken.contains(k) {
        !u.items.contains_key(k) && ttl::expires(u, k) == Ok::<Option<u64>, Error>(None)
    } else {
        alike(t, u, k) && ttl::expires(u, k) == ttl::expires(t, k)
    } by {
        lemma_due_by_times(t, k, now);
        lemma_due_by_times(u, k, now);
        assert(off.contains(k) <==> lookup(t).items.contains_key(k)
            && !lookup(u).items.contains_key(k));
        if lookup(u).items.contains_key(k) {
            assert(lookup(t).items.contains_key(k));
        }
        if !taken.contains(k) {
            assert(alike(t, u, k));
        }
    }
}

/// Where a key that is not listed belongs.
proof fn lemma_place<V>(s: Seq<(Seq<u8>, V)>, key: Seq<u8>) -> (i: int)
    requires
        bytemap::ascending(s),
        forall|j: int| 0 <= j < s.len() ==> (#[trigger] s[j]).0 != key,
    ensures
        0 <= i <= s.len(),
        forall|j: int| 0 <= j < i ==> bytes::lex_lt((#[trigger] s[j]).0, key),
        forall|j: int| i <= j < s.len() ==> bytes::lex_lt(key, (#[trigger] s[j]).0),
    decreases s.len(),
{
    if s.len() == 0 {
        0
    } else {
        let front = s.drop_last();
        let n = s.len() - 1;
        assert forall|a: int, b: int| 0 <= a < b < front.len() implies bytes::lex_lt(
            (#[trigger] front[a]).0,
            (#[trigger] front[b]).0,
        ) by {
            assert(bytes::lex_lt(s[a].0, s[b].0));
        }
        assert forall|j: int| 0 <= j < front.len() implies (#[trigger] front[j]).0 != key by {
            assert(s[j].0 != key);
        }
        bytes::lemma_lex_total(s[n].0, key);
        let i = lemma_place(front, key);
        if bytes::lex_lt(s[n].0, key) {
            assert forall|j: int| 0 <= j < s.len() implies bytes::lex_lt(
                (#[trigger] s[j]).0,
                key,
            ) by {
                if j < n {
                    bytes::lemma_lex_transitive(s[j].0, s[n].0, key);
                }
            }
            s.len() as int
        } else {
            assert forall|j: int| 0 <= j < i implies bytes::lex_lt((#[trigger] s[j]).0, key) by {
                assert(front[j] == s[j]);
            }
            assert forall|j: int| i <= j < s.len() implies bytes::lex_lt(
                key,
                (#[trigger] s[j]).0,
            ) by {
                if j < n {
                    assert(front[j] == s[j]);
                }
            }
            i
        }
    }
}

/// A bucket with one entry more can be listed too.
pub proof fn lemma_sorted_with(t: Tree, key: Seq<u8>, item: Item)
    requires
        sorted(t),
    ensures
        sorted(tree::with_item(t, key, item)),
{
    let s = tree::listing(t);
    bytemap::lemma_ascending_distinct(s);
    assoc::lemma_assoc_has(s, key);
    if assoc::has_key(s, key) {
        let i = choose|i: int| 0 <= i < s.len() && (#[trigger] s[i]).0 == key;
        assoc::lemma_assoc_update(s, i, item);
        let u = s.update(i, (s[i].0, item));
        assert forall|a: int, b: int| 0 <= a < b < u.len() implies bytes::lex_lt(
            (#[trigger] u[a]).0,
            (#[trigger] u[b]).0,
        ) by {
            assert(bytes::lex_lt(s[a].0, s[b].0));
        }
        bytemap::lemma_listed(u);
    } else {
        let i = lemma_place(s, key);
        assoc::lemma_assoc_insert(s, i, key, item);
        let u = s.insert(i, (key, item));
        assert forall|a: int, b: int| 0 <= a < b < u.len() implies bytes::lex_lt(
            (#[trigger] u[a]).0,
            (#[trigger] u[b]).0,
        ) by {
            let x = if a < i {
                a
            } else {
                a - 1
            };
            let y = if b < i {
                b
            } else {
                b - 1
            };
            if a != i {
                assert(u[a] == s[x]);
            }
            if b != i {
                assert(u[b] == s[y]);
            }
            if a != i && b != i {
                assert(bytes::lex_lt(s[x].0, s[y].0));
            }
        }
        bytemap::lemma_listed(u);
    }
}

/// A bucket without one of its entries can be listed too.
pub proof fn lemma_sorted_without(t: Tree, key: Seq<u8>)
    requires
        sorted(t),
    ensures
        sorted(tree::without(t, key)),
{
    let s = tree::listing(t);
    bytemap::lemma_ascending_distinct(s);
    assoc::lemma_assoc_has(s, key);
    if assoc::has_key(s, key) {
        let i = choose|i: int| 0 <= i < s.len() && (#[trigger] s[i]).0 == key;
        assoc::lemma_assoc_remove(s, i);
        let u = s.remove(i);
        assert forall|a: int, b: int| 0 <= a < b < u.len() implies bytes::lex_lt(
            (#[trigger] u[a]).0,
            (#[trigger] u[b]).0,
        ) by {
            let x = if a < i {
                a
            } else {
                a + 1
            };
            let y = if b < i {
                b
            } else {
                b + 1
            };
            assert(bytes::lex_lt(s[x].0, s[y].0));
        }
        bytemap::lemma_listed(u);
    } else {
        assert(t.items.remove(key) =~= t.items);
    }
}

/// A bucket with nothing in it can be listed.
proof fn lemma_sorted_empty()
    ensures
        sorted(tree::empty_tree()),
{
    let none = Seq::<(Seq<u8>, Item)>::empty();
    assert(assoc::assoc(none) =~= tree::empty_tree().items);
    bytemap::lemma_listed(none);
}

/// What the first deadlines list when they are listed one by one.
proof fn lemma_listed_one_by_one(times: Tree, n: int)
    requires
        sorted(times),
        forall|k: Seq<u8>| #[trigger]
            times.items.contains_key(k) ==> (times.items[k] matches Item::Value(v) && v.len()
                == 8),
        0 <= n <= cursor::data_in(times).len(),
    ensures
        ({
            let e = tree::listing(times);
            let (r, order) = ttl::listed_all(
                tree::empty_tree(),
                cursor::data_in(times).take(n),
            );
            &&& r is Ok
            &&& sorted(order)
            &&& forall|q: Seq<u8>| #[trigger]
                order.items.contains_key(q) ==> order.items[q] is Value && exists|i: int|
                    0 <= i < n && q == (#[trigger] e[i]).1->Value_0 + e[i].0
            &&& forall|i: int|
                0 <= i < n ==> order.items.contains_key((#[trigger] e[i]).1->Value_0 + e[i].0)
        }),
    decreases n,
{
    let l = cursor::data_in(times);
    let e = tree::listing(times);
    if n == 0 {
        lemma_sorted_empty();
    } else {
        lemma_listed_one_by_one(times, n - 1);
        assert(l.take(n).drop_last() =~= l.take(n - 1));
        assert(l.take(n).last() == l[n - 1]);
        bytemap::lemma_ascending_distinct(e);
        assoc::lemma_assoc_at(e, n - 1);
        assert(times.items.contains_key(e[n - 1].0));
        let key = e[n - 1].0;
        let v = e[n - 1].1->Value_0;
        bytes::lemma_be_inverse(v);
        bytes::lemma_pow256_widths();
        let d = ttl::deadline_of(v)->Ok_0;
        assert(ttl::deadline_bytes(d) =~= v);
        let before = ttl::listed_all(tree::empty_tree(), l.take(n - 1)).1;
        let order = ttl::listed_all(tree::empty_tree(), l.take(n)).1;
        lemma_sorted_with(before, v + key, Item::Value(Seq::empty()));
        assert(order == tree::with_item(before, v + key, Item::Value(Seq::empty())));
        assert forall|q: Seq<u8>| #[trigger] order.items.contains_key(
            q,
        ) implies order.items[q] is Value && exists|i: int|
            0 <= i < n && q == (#[trigger] e[i]).1->Value_0 + e[i].0 by {
            if q == v + key {
                assert(q == e[n - 1].1->Value_0 + e[n - 1].0);
            } else {
                assert(before.items.contains_key(q));
                let i = choose|i: int|
                    0 <= i < n - 1 && q == (#[trigger] e[i]).1->Value_0 + e[i].0;
                assert(q == e[i].1->Value_0 + e[i].0);
            }
        }
    }
}

/// Deadlines that were not listed yet are listed.
proof fn lemma_list_made(t: Tree)
    requires
        tree::child_of(t, names::ttl_name()) is Ok,
        tree::child_of(t, names::deadlines_name()) == Err::<Tree, Error>(Error::BucketMissing),
        well_timed(t),
        sorted(lookup(t)),
    ensures
        ({
            let (r, u) = ttl::with_list(t);
            &&& r is Ok
            &&& tree::child_of(u, names::ttl_name()) == tree::child_of(t, names::ttl_name())
            &&& tree::child_of(u, names::deadlines_name()) is Ok
            &&& ttl_laws::tallies(lookup(u), list(u))
            &&& well_timed(u)
            &&& sorted(list(u))
            &&& forall|k: Seq<u8>| !names::about_ttl(k) ==> #[trigger] alike(t, u, k)
        }),
{
    names::law_names_differ();
    let times = lookup(t);
    let e = tree::listing(times);
    let l = cursor::data_in(times);
    lemma_listed_one_by_one(times, l.len() as int);
    assert(l.take(l.len() as int) =~= l);
    let u = ttl::with_list(t).1;
    let order = list(u);
    bytemap::lemma_ascending_distinct(e);
    assert forall|q: Seq<u8>| #[trigger] order.items.contains_key(q) <==> q.len() >= 8
        && tree::value_of(times, q.skip(8)) == Some(q.take(8)) by {
        if order.items.contains_key(q) {
            let i = choose|i: int|
                0 <= i < e.len() && q == (#[trigger] e[i]).1->Value_0 + e[i].0;
            assoc::lemma_assoc_at(e, i);
            assert(times.items.contains_key(e[i].0));
            assert(q.take(8) =~= e[i].1->Value_0);
            assert(q.skip(8) =~= e[i].0);
        }
        if q.len() >= 8 && tree::value_of(times, q.skip(8)) == Some(q.take(8)) {
            let k = q.skip(8);
            assoc::lemma_assoc_has(e, k);
            let i = choose|i: int| 0 <= i < e.len() && (#[trigger] e[i]).0 == k;
            assoc::lemma_assoc_at(e, i);
            assert(q =~= e[i].1->Value_0 + e[i].0);
        }
    }
    assert forall|k: Seq<u8>| #[trigger] lookup(u).items.contains_key(k) implies !names::about_ttl(
        k,
    ) && (lookup(u).items[k] matches Item::Value(v) && v.len() == 8) && !(u.items.contains_key(k)
        && u.items[k] is Bucket) by {
        assert(lookup(t).items.contains_key(k));
    }
}

/// Removing expired keys from one bucket is right, whether or not its deadlines
/// are listed yet.
proof fn lemma_purge_right(s: Space, path: Seq<Seq<u8>>, now: u64, limit: nat)
    requires
        timed(s.tree),
        times_sorted(s.tree),
        limit > 0,
    ensures
        ({
            let (r, after) = ttl::purged(s, path, now, limit);
            purge_right(s.tree, r, after.tree, now, limit)
        }),
{
    names::law_names_differ();
    let t = s.tree;
    if tree::child_of(t, names::ttl_name()) is Err {
        assert(due_keys(t, now) =~= Set::<Seq<u8>>::empty());
        assert(due_keys(t, now).difference(due_keys(t, now)) =~= Set::<Seq<u8>>::empty());
    } else if tree::child_of(t, names::deadlines_name()) is Ok {
        assert(ttl::with_list(t) == (Ok::<(), Error>(()), t));
        lemma_purge_listed(s, path, now, limit);
    } else {
        lemma_list_made(t);
        let u = ttl::with_list(t).1;
        let mid = Space { tree: u, ..s };
        lemma_purge_listed(mid, path, now, limit);
        assert(due_keys(u, now) =~= due_keys(t, now));
        let after = ttl::purged(s, path, now, limit).1.tree;
        let taken = due_keys(t, now).difference(due_keys(after, now));
        assert forall|k: Seq<u8>| #[trigger] taken.contains(k) implies !names::about_ttl(k) && !(
        t.items.contains_key(k) && t.items[k] is Bucket) by {
            assert(alike(t, u, k));
        }
        assert forall|k: Seq<u8>| !names::about_ttl(k) implies if #[trigger] taken.contains(k) {
            !after.items.contains_key(k) && ttl::expires(after, k) == Ok::<Option<u64>, Error>(
                None,
            )
        } else {
            alike(t, after, k) && ttl::expires(after, k) == ttl::expires(t, k)
        } by {
            assert(alike(t, u, k));
            assert(ttl::expires(u, k) == ttl::expires(t, k));
        }
    }
}

/// Where in a bucket, and in the buckets within it at any depth, there is a key
/// whose deadline has come: the path to its bucket, and the key.
pub open spec fn due_places(t: Tree, now: u64) -> Set<(Seq<Seq<u8>>, Seq<u8>)> {
    Set::new(
        |x: (Seq<Seq<u8>>, Seq<u8>)|
            ordinary(x.0) && (tree::bucket_at(t, x.0) matches Some(b) && due_key(b, x.1, now)),
    )
}

/// Whether the deadlines of a bucket, and of all buckets within it, are in order.
pub open spec fn timed_throughout(t: Tree) -> bool {
    forall|p: Seq<Seq<u8>>|
        ordinary(p) && (#[trigger] tree::bucket_at(t, p)) is Some ==> timed(
            tree::bucket_at(t, p)->0,
        )
}

/// Whether a key at the end of a path was removed with its deadline, which had
/// come, or else is as it was; no bucket comes or goes.
pub open spec fn kept_or_expired(
    a: Tree,
    b: Tree,
    now: u64,
    p: Seq<Seq<u8>>,
    k: Seq<u8>,
) -> bool {
    ordinary(p) && !names::about_ttl(k) ==> {
        &&& tree::bucket_at(a, p) is Some <==> tree::bucket_at(b, p) is Some
        &&& tree::bucket_at(a, p) is Some ==> {
            let x = tree::bucket_at(a, p)->0;
            let y = tree::bucket_at(b, p)->0;
            if due_key(x, k, now) && !due_key(y, k, now) {
                !y.items.contains_key(k) && ttl::expires(y, k) == Ok::<Option<u64>, Error>(None)
            } else {
                &&& y.items.contains_key(k) == x.items.contains_key(k)
                &&& tree::value_of(y, k) == tree::value_of(x, k)
                &&& ttl::expires(y, k) == ttl::expires(x, k)
            }
        }
    }
}

/// Whether just `n` keys whose deadlines had come were removed from a bucket and
/// the buckets within it, and nothing else changed.
pub open spec fn swept_clean(a: Tree, b: Tree, now: u64, n: nat) -> bool {
    let taken = due_places(a, now).difference(due_places(b, now));
    &&& due_places(b, now).subset_of(due_places(a, now))
    &&& taken.finite()
    &&& taken.len() == n
    &&& forall|p: Seq<Seq<u8>>, k: Seq<u8>| #[trigger] kept_or_expired(a, b, now, p, k)
}

proof fn lemma_clean_chain(a: Tree, b: Tree, c: Tree, now: u64, n: nat, m: nat)
    requires
        swept_clean(a, b, now, n),
        swept_clean(b, c, now, m),
    ensures
        swept_clean(a, c, now, n + m),
{
    let x = due_places(a, now).difference(due_places(b, now));
    let y = due_places(b, now).difference(due_places(c, now));
    let z = due_places(a, now).difference(due_places(c, now));
    assert(z =~= x + y);
    assert(x.disjoint(y));
    vstd::set_lib::lemma_set_disjoint_lens(x, y);
    assert forall|p: Seq<Seq<u8>>, k: Seq<u8>| #[trigger] kept_or_expired(a, c, now, p, k) by {
        assert(kept_or_expired(a, b, now, p, k));
        assert(kept_or_expired(b, c, now, p, k));
        if ordinary(p) && !names::about_ttl(k) && tree::bucket_at(a, p) is Some {
            let u = tree::bucket_at(b, p)->0;
            if due_key(tree::bucket_at(c, p)->0, k, now) {
                assert(due_places(c, now).contains((p, k)));
                assert(due_places(b, now).contains((p, k)));
                assert(due_places(a, now).contains((p, k)));
            }
            if due_key(u, k, now) {
                assert(due_places(b, now).contains((p, k)));
                assert(due_places(a, now).contains((p, k)));
            }
        }
    }
}

proof fn lemma_clean_same(a: Tree, now: u64)
    ensures
        swept_clean(a, a, now, 0),
{
    assert(due_places(a, now).difference(due_places(a, now)) =~= Set::empty());
}

proof fn lemma_ordinary_tail(p: Seq<Seq<u8>>)
    requires
        p.len() > 0,
    ensures
        ordinary(p) <==> !names::about_ttl(p[0]) && ordinary(p.drop_first()),
{
    let rest = p.drop_first();
    if ordinary(p) {
        assert forall|i: int| 0 <= i < rest.len() implies !names::about_ttl(#[trigger] rest[i]) by {
            assert(rest[i] == p[i + 1]);
        }
    }
    if !names::about_ttl(p[0]) && ordinary(rest) {
        assert forall|i: int| 0 <= i < p.len() implies !names::about_ttl(#[trigger] p[i]) by {
            if i > 0 {
                assert(rest[i - 1] == p[i]);
            }
        }
    }
}

/// What was swept in a nested bucket was swept in its parent.
proof fn lemma_clean_child(a: Tree, name: Seq<u8>, inner: Tree, now: u64, n: nat)
    requires
        !names::about_ttl(name),
        tree::child_of(a, name) is Ok,
        swept_clean(tree::child_of(a, name)->Ok_0, inner, now, n),
    ensures
        swept_clean(a, tree::with_child(a, name, inner), now, n),
{
    names::law_names_differ();
    let child = tree::child_of(a, name)->Ok_0;
    let b = tree::with_child(a, name, inner);
    let small = due_places(child, now).difference(due_places(inner, now));
    let large = due_places(a, now).difference(due_places(b, now));
    let f = |x: (Seq<Seq<u8>>, Seq<u8>)| (seq![name] + x.0, x.1);
    assert forall|p: Seq<Seq<u8>>, k: Seq<u8>| #[trigger]
        due_places(a, now).contains((p, k)) && p.len() > 0 && p[0] == name
            <==> p.len() > 0 && p[0] == name && due_places(child, now).contains(
            (p.drop_first(), k),
        ) by {
        if p.len() > 0 {
            lemma_ordinary_tail(p);
        }
    }
    assert forall|p: Seq<Seq<u8>>, k: Seq<u8>| #[trigger]
        due_places(b, now).contains((p, k)) && p.len() > 0 && p[0] == name
            <==> p.len() > 0 && p[0] == name && due_places(inner, now).contains(
            (p.drop_first(), k),
        ) by {
        if p.len() > 0 {
            lemma_ordinary_tail(p);
        }
    }
    assert forall|p: Seq<Seq<u8>>, k: Seq<u8>|
        !(p.len() > 0 && p[0] == name) implies #[trigger] due_places(a, now).contains((p, k))
        == due_places(b, now).contains((p, k)) by {
        if p.len() == 0 {
            assert(ttl::expires(b, k) == ttl::expires(a, k));
        } else {
            assert(tree::bucket_at(b, p) == tree::bucket_at(a, p));
        }
    }
    assert(due_places(b, now).subset_of(due_places(a, now))) by {
        assert forall|x: (Seq<Seq<u8>>, Seq<u8>)| due_places(b, now).contains(
            x,
        ) implies due_places(a, now).contains(x) by {
            assert(due_places(b, now).contains((x.0, x.1)));
            if x.0.len() > 0 && x.0[0] == name {
                assert(due_places(child, now).contains((x.0.drop_first(), x.1)));
                assert(due_places(a, now).contains((x.0, x.1)));
            } else {
                assert(due_places(a, now).contains((x.0, x.1)));
            }
        }
    }
    assert(small.map(f) =~= large) by {
        assert forall|x: (Seq<Seq<u8>>, Seq<u8>)| small.map(f).contains(x) <==> large.contains(
            x,
        ) by {
            if small.map(f).contains(x) {
                let y = choose|y: (Seq<Seq<u8>>, Seq<u8>)| small.contains(y) && x == f(y);
                assert(x.0.drop_first() =~= y.0);
                assert(x.0[0] == name);
                assert(due_places(a, now).contains((x.0, x.1)));
                assert(!due_places(b, now).contains((x.0, x.1)));
            }
            if large.contains(x) {
                assert(due_places(a, now).contains((x.0, x.1)));
                assert(!due_places(b, now).contains((x.0, x.1)));
                let y = (x.0.drop_first(), x.1);
                assert(small.contains(y));
                assert(seq![name] + y.0 =~= x.0);
                assert(f(y) == x);
            }
        }
    }
    assert(vstd::relations::injective_on(f, small)) by {
        assert forall|x: (Seq<Seq<u8>>, Seq<u8>), y: (Seq<Seq<u8>>, Seq<u8>)|
            small.contains(x) && small.contains(y) && #[trigger] f(x) == #[trigger] f(
                y,
            ) implies x == y by {
            assert((seq![name] + x.0).drop_first() =~= x.0);
            assert((seq![name] + y.0).drop_first() =~= y.0);
        }
    }
    vstd::set_lib::lemma_map_size(small, large, f);
    assert forall|p: Seq<Seq<u8>>, k: Seq<u8>| #[trigger] kept_or_expired(a, b, now, p, k) by {
        if p.len() > 0 && p[0] == name {
            lemma_ordinary_tail(p);
            assert(kept_or_expired(child, inner, now, p.drop_first(), k));
        } else if p.len() == 0 {
            assert(ttl::expires(b, k) == ttl::expires(a, k));
        } else {
            assert(tree::bucket_at(b, p) == tree::bucket_at(a, p));
        }
    }
}

/// What was removed from one bucket alone.
proof fn lemma_clean_purge(t: Tree, u: Tree, now: u64, limit: nat, n: nat)
    requires
        purge_right(t, Ok::<nat, Error>(n), u, now, limit),
    ensures
        swept_clean(t, u, now, n),
        forall|name: Seq<u8>|
            !names::about_ttl(name) && #[trigger] tree::child_of(t, name) is Ok
                ==> tree::child_of(u, name) == tree::child_of(t, name),
{
    let taken = due_keys(t, now).difference(due_keys(u, now));
    let large = due_places(t, now).difference(due_places(u, now));
    let none = Seq::<Seq<u8>>::empty();
    let f = |k: Seq<u8>| (none, k);
    assert forall|p: Seq<Seq<u8>>| p.len() > 0 && ordinary(p) implies #[trigger] tree::bucket_at(
        u,
        p,
    ) == tree::bucket_at(t, p) by {
        lemma_ordinary_tail(p);
        assert(taken.contains(p[0]) || alike(t, u, p[0]));
    }
    assert forall|k: Seq<u8>| due_places(t, now).contains((none, k)) == #[trigger] due_keys(
        t,
        now,
    ).contains(k) by {
        assert(ordinary(none));
    }
    assert forall|k: Seq<u8>| due_places(u, now).contains((none, k)) == #[trigger] due_keys(
        u,
        now,
    ).contains(k) by {
        assert(ordinary(none));
    }
    assert(due_places(u, now).subset_of(due_places(t, now))) by {
        assert forall|x: (Seq<Seq<u8>>, Seq<u8>)| due_places(u, now).contains(
            x,
        ) implies due_places(t, now).contains(x) by {
            if x.0.len() == 0 {
                assert(x.0 =~= none);
                assert(due_keys(u, now).contains(x.1));
                assert(due_keys(t, now).contains(x.1));
            }
        }
    }
    assert(taken.map(f) =~= large) by {
        assert forall|x: (Seq<Seq<u8>>, Seq<u8>)| taken.map(f).contains(x) <==> large.contains(
            x,
        ) by {
            if taken.map(f).contains(x) {
                let k = choose|k: Seq<u8>| taken.contains(k) && x == f(k);
                assert(due_keys(t, now).contains(k) && !due_keys(u, now).contains(k));
            }
            if large.contains(x) {
                assert(x.0.len() == 0);
                assert(x.0 =~= none);
                assert(due_keys(t, now).contains(x.1));
                assert(!due_keys(u, now).contains(x.1));
                assert(taken.contains(x.1));
                assert(f(x.1) == x);
            }
        }
    }
    vstd::set_lib::lemma_map_size(taken, large, f);
    assert forall|p: Seq<Seq<u8>>, k: Seq<u8>| #[trigger] kept_or_expired(t, u, now, p, k) by {
        if p.len() == 0 && !names::about_ttl(k) {
            assert(due_keys(t, now).contains(k) == due_key(t, k, now));
            assert(due_keys(u, now).contains(k) == due_key(u, k, now));
            assert(taken.contains(k) <==> due_key(t, k, now) && !due_key(u, k, now));
        }
    }
    assert forall|name: Seq<u8>|
        !names::about_ttl(name) && #[trigger] tree::child_of(t, name) is Ok implies tree::child_of(
        u,
        name,
    ) == tree::child_of(t, name) by {
        assert(taken.contains(name) || alike(t, u, name));
    }
}

/// The names of the nested buckets are all listed, but for those by which keys
/// expire.
proof fn lemma_names_complete(l: Seq<DataView>, name: Seq<u8>)
    requires
        !names::about_ttl(name),
        exists|i: int| 0 <= i < l.len() && #[trigger] l[i] == DataView::Bucket(name),
    ensures
        sweep::bucket_names(l).contains(name),
    decreases l.len(),
{
    let i = choose|i: int| 0 <= i < l.len() && #[trigger] l[i] == DataView::Bucket(name);
    let front = l.drop_last();
    let q = sweep::bucket_names(l);
    let p = sweep::bucket_names(front);
    if i == l.len() - 1 {
        assert(q[q.len() - 1] == name);
    } else {
        assert(front[i] == DataView::Bucket(name));
        lemma_names_complete(front, name);
        let j = choose|j: int| 0 <= j < p.len() && p[j] == name;
        assert(q[j] == name);
    }
}

/// The names of a bucket's nested buckets: just those that it has, each once.
proof fn lemma_bucket_names(t: Tree)
    requires
        sorted(t),
    ensures
        ({
            let n = sweep::bucket_names(cursor::data_in(t));
            &&& forall|j: int|
                0 <= j < n.len() ==> !names::about_ttl(#[trigger] n[j]) && tree::child_of(
                    t,
                    n[j],
                ) is Ok
            &&& forall|a: int, b: int|
                0 <= a < b < n.len() ==> (#[trigger] n[a]) != (#[trigger] n[b])
            &&& forall|name: Seq<u8>|
                !names::about_ttl(name) && #[trigger] tree::child_of(t, name) is Ok ==> n.contains(
                    name,
                )
        }),
{
    let l = cursor::data_in(t);
    let e = tree::listing(t);
    let n = sweep::bucket_names(l);
    bytemap::lemma_ascending_distinct(e);
    assert(cursor::in_order(l)) by {
        assert forall|i: int, j: int| 0 <= i < j < l.len() implies bytes::lex_lt(
            (#[trigger] l[i]).key(),
            (#[trigger] l[j]).key(),
        ) by {
            assert(bytes::lex_lt(e[i].0, e[j].0));
        }
    }
    sweep::lemma_names(l);
    assert forall|j: int| 0 <= j < n.len() implies !names::about_ttl(#[trigger] n[j])
        && tree::child_of(t, n[j]) is Ok by {
        let i = choose|i: int| 0 <= i < l.len() && #[trigger] l[i] == DataView::Bucket(n[j]);
        assoc::lemma_assoc_at(e, i);
    }
    assert forall|name: Seq<u8>|
        !names::about_ttl(name) && #[trigger] tree::child_of(t, name) is Ok implies n.contains(
        name,
    ) by {
        assoc::lemma_assoc_has(e, name);
        let i = choose|i: int| 0 <= i < e.len() && (#[trigger] e[i]).0 == name;
        assoc::lemma_assoc_at(e, i);
        assert(l[i] == DataView::Bucket(name));
        lemma_names_complete(l, name);
    }
}

/// The buckets within one whose deadlines are in order.
proof fn lemma_child_timed(t: Tree, name: Seq<u8>)
    requires
        timed_throughout(t),
        !names::about_ttl(name),
        tree::child_of(t, name) is Ok,
    ensures
        timed_throughout(tree::child_of(t, name)->Ok_0),
{
    let child = tree::child_of(t, name)->Ok_0;
    assert forall|p: Seq<Seq<u8>>|
        ordinary(p) && (#[trigger] tree::bucket_at(child, p)) is Some implies timed(
        tree::bucket_at(child, p)->0,
    ) by {
        let q = seq![name] + p;
        assert(q.drop_first() =~= p);
        assert(q[0] == name);
        lemma_ordinary_tail(q);
        assert(tree::bucket_at(t, q) == tree::bucket_at(child, p));
    }
}

proof fn lemma_times_sorted(t: Tree)
    requires
        listable(t),
    ensures
        times_sorted(t),
        sorted(t),
{
    if tree::child_of(t, names::ttl_name()) is Ok {
        crate::api::merge_deep_laws::lemma_child_listable(t, names::ttl_name());
    }
    if tree::child_of(t, names::deadlines_name()) is Ok {
        crate::api::merge_deep_laws::lemma_child_listable(t, names::deadlines_name());
    }
}

/// What sweeping the nested buckets under some names comes to.
proof fn lemma_within(
    t: Tree,
    s: Space,
    path: Seq<Seq<u8>>,
    list: Seq<Seq<u8>>,
    now: u64,
    limit: nat,
    removed: nat,
)
    requires
        listable(t),
        timed_throughout(t),
        removed <= limit,
        forall|j: int|
            0 <= j < list.len() ==> !names::about_ttl(#[trigger] list[j]) && tree::child_of(
                t,
                list[j],
            ) is Ok && tree::child_of(s.tree, list[j]) == tree::child_of(t, list[j]),
        forall|a: int, b: int|
            0 <= a < b < list.len() ==> (#[trigger] list[a]) != (#[trigger] list[b]),
    ensures
        ({
            let (r, after) = sweep::swept_within(t, s, path, list, now, limit, removed);
            &&& r is Ok
            &&& removed <= r->Ok_0 <= limit
            &&& swept_clean(s.tree, after.tree, now, (r->Ok_0 - removed) as nat)
            &&& forall|k: Seq<u8>| !list.contains(k) ==> #[trigger] alike(s.tree, after.tree, k)
            &&& r->Ok_0 < limit ==> forall|x: (Seq<Seq<u8>>, Seq<u8>)| #[trigger]
                due_places(after.tree, now).contains(x) && x.0.len() > 0 ==> !list.contains(x.0[0])
        }),
    decreases t, 0nat, list.len(),
{
    let (r, after) = sweep::swept_within(t, s, path, list, now, limit, removed);
    if list.len() == 0 || removed >= limit {
        lemma_clean_same(s.tree, now);
    } else {
        let name = list[0];
        let rest = list.drop_first();
        assert(tree::child_of(t, list[0]) is Ok);
        let child = tree::child_of(t, name)->Ok_0;
        lemma_child_timed(t, name);
        crate::api::merge_deep_laws::lemma_child_listable(t, name);
        assert(decreases_to!(t => t.items[name]->Bucket_0));
        let into = Space { tree: child, log: s.log };
        let left = (limit - removed) as nat;
        law_sweep_reaches_every_depth(into, path.push(name), now, left);
        let (n, inner) = sweep::swept(into, path.push(name), now, left);
        let mid = Space { tree: tree::with_child(s.tree, name, inner.tree), log: inner.log };
        let m = n->Ok_0;
        lemma_clean_child(s.tree, name, inner.tree, now, m);
        assert forall|j: int| 0 <= j < rest.len() implies !names::about_ttl(#[trigger] rest[j])
            && tree::child_of(t, rest[j]) is Ok && tree::child_of(mid.tree, rest[j])
            == tree::child_of(t, rest[j]) by {
            assert(rest[j] == list[j + 1]);
            assert(list[0] != list[j + 1]);
        }
        assert forall|a: int, b: int| 0 <= a < b < rest.len() implies (#[trigger] rest[a]) != (
        #[trigger] rest[b]) by {
            assert(list[a + 1] != list[b + 1]);
        }
        lemma_within(t, mid, path, rest, now, limit, removed + m);
        lemma_clean_chain(
            s.tree,
            mid.tree,
            after.tree,
            now,
            m,
            (r->Ok_0 - (removed + m)) as nat,
        );
        assert forall|k: Seq<u8>| list.contains(k) <==> k == name || rest.contains(k) by {
            if list.contains(k) {
                let i = choose|i: int| 0 <= i < list.len() && list[i] == k;
                if i > 0 {
                    assert(rest[i - 1] == k);
                }
            }
            if rest.contains(k) {
                let i = choose|i: int| 0 <= i < rest.len() && rest[i] == k;
                assert(list[i + 1] == k);
            }
            if k == name {
                assert(list[0] == k);
            }
        }
        assert forall|k: Seq<u8>| !list.contains(k) implies #[trigger] alike(
            s.tree,
            after.tree,
            k,
        ) by {
            assert(alike(mid.tree, after.tree, k));
        }
        if r->Ok_0 < limit {
            assert(!rest.contains(name)) by {
                if rest.contains(name) {
                    let i = choose|i: int| 0 <= i < rest.len() && rest[i] == name;
                    assert(list[0] != list[i + 1]);
                }
            }
            assert(alike(mid.tree, after.tree, name));
            assert forall|x: (Seq<Seq<u8>>, Seq<u8>)| #[trigger] due_places(
                after.tree,
                now,
            ).contains(x) && x.0.len() > 0 implies !list.contains(x.0[0]) by {
                if x.0[0] == name {
                    lemma_ordinary_tail(x.0);
                    assert(tree::child_of(after.tree, name) == Ok::<Tree, Error>(inner.tree));
                    assert(due_places(inner.tree, now).contains((x.0.drop_first(), x.1)));
                }
            }
        }
    }
}

/// A sweep reaches every depth. It removes keys whose deadlines have come, with
/// the deadlines, from a bucket and the buckets within it at any depth, and
/// nothing else: as many as it says, and no more than the limit. If that is
/// fewer than the limit, no key whose deadline has come is left anywhere.
pub proof fn law_sweep_reaches_every_depth(s: Space, path: Seq<Seq<u8>>, now: u64, limit: nat)
    requires
        listable(s.tree),
        timed_throughout(s.tree),
    ensures
        ({
            let (r, after) = sweep::swept(s, path, now, limit);
            &&& r is Ok
            &&& r->Ok_0 <= limit
            &&& swept_clean(s.tree, after.tree, now, r->Ok_0)
            &&& r->Ok_0 < limit ==> due_places(after.tree, now) == Set::<
                (Seq<Seq<u8>>, Seq<u8>),
            >::empty()
        }),
    decreases s.tree, 1nat, 0nat,
{
    let t = s.tree;
    if limit == 0 {
        lemma_clean_same(t, now);
    } else {
        let none = Seq::<Seq<u8>>::empty();
        assert(ordinary(none));
        assert(tree::bucket_at(t, none) == Some(t));
        lemma_times_sorted(t);
        lemma_purge_right(s, path, now, limit);
        let (n, mid) = ttl::purged(s, path, now, limit);
        lemma_clean_purge(t, mid.tree, now, limit, n->Ok_0);
        if n->Ok_0 < limit {
            let list = sweep::bucket_names(cursor::data_in(t));
            lemma_bucket_names(t);
            lemma_within(t, mid, path, list, now, limit, n->Ok_0);
            let (r, after) = sweep::swept(s, path, now, limit);
            lemma_clean_chain(
                t,
                mid.tree,
                after.tree,
                now,
                n->Ok_0,
                (r->Ok_0 - n->Ok_0) as nat,
            );
            if r->Ok_0 < limit {
                lemma_none_due(t, mid.tree, after.tree, list, now);
            }
        }
    }
}

/// Where neither a bucket nor those within it have keys that are due.
proof fn lemma_none_due(t: Tree, mid: Tree, after: Tree, list: Seq<Seq<u8>>, now: u64)
    requires
        due_keys(mid, now) == Set::<Seq<u8>>::empty(),
        forall|p: Seq<Seq<u8>>, k: Seq<u8>| #[trigger] kept_or_expired(t, after, now, p, k),
        due_places(after, now).subset_of(due_places(mid, now)),
        forall|name: Seq<u8>|
            !names::about_ttl(name) && #[trigger] tree::child_of(t, name) is Ok ==> list.contains(
                name,
            ),
        forall|x: (Seq<Seq<u8>>, Seq<u8>)| #[trigger]
            due_places(after, now).contains(x) && x.0.len() > 0 ==> !list.contains(x.0[0]),
    ensures
        due_places(after, now) == Set::<(Seq<Seq<u8>>, Seq<u8>)>::empty(),
{
    assert forall|x: (Seq<Seq<u8>>, Seq<u8>)| !(#[trigger] due_places(after, now).contains(x)) by {
        if due_places(after, now).contains(x) {
            if x.0.len() == 0 {
                assert(due_places(mid, now).contains(x));
                assert(due_keys(mid, now).contains(x.1));
            } else {
                lemma_ordinary_tail(x.0);
                let one = seq![x.0[0]];
                assert(ordinary(one));
                let odd = Seq::<u8>::empty();
                names::law_names_differ();
                assert(!names::about_ttl(odd)) by {
                    assert(names::ttl_name().len() > 0 && names::deadlines_name().len() > 0);
                }
                assert(kept_or_expired(t, after, now, one, odd));
                assert(tree::child_of(after, x.0[0]) is Ok);
                let child = tree::child_of(after, x.0[0])->Ok_0;
                assert(tree::bucket_at(child, one.drop_first()) == Some(child));
                assert(tree::bucket_at(after, one) is Some);
                assert(tree::bucket_at(t, one) is Some);
                assert(tree::child_of(t, x.0[0]) is Ok);
            }
        }
    }
    assert(due_places(after, now) =~= Set::<(Seq<Seq<u8>>, Seq<u8>)>::empty());
}

/// A sweep of a database reaches every bucket at every depth below its root.
pub proof fn law_database_sweep_reaches_every_depth(root: Space, now: u64, limit: nat)
    requires
        listable(root.tree),
        timed_throughout(root.tree),
        due_keys(root.tree, now) == Set::<Seq<u8>>::empty(),
    ensures
        ({
            let (r, after) = sweep::swept_within(
                root.tree,
                root,
                Seq::empty(),
                sweep::bucket_names(cursor::data_in(root.tree)),
                now,
                limit,
                0,
            );
            &&& r is Ok
            &&& r->Ok_0 <= limit
            &&& swept_clean(root.tree, after.tree, now, r->Ok_0)
            &&& r->Ok_0 < limit ==> due_places(after.tree, now) == Set::<
                (Seq<Seq<u8>>, Seq<u8>),
            >::empty()
        }),
{
    let t = root.tree;
    let list = sweep::bucket_names(cursor::data_in(t));
    lemma_times_sorted(t);
    lemma_bucket_names(t);
    lemma_within(t, root, Seq::empty(), list, now, limit, 0);
    let (r, after) = sweep::swept_within(t, root, Seq::empty(), list, now, limit, 0);
    if r->Ok_0 < limit {
        lemma_none_due(t, t, after.tree, list, now);
    }
}

} // verus!
