//! What holds of keys that expire.

use crate::api::bucket::{self, Space};
use crate::api::cursor;
use crate::api::names;
use crate::api::tree::{self, Item, Node, Tree};
use crate::api::ttl;
use crate::assoc;
use crate::bytemap;
use crate::bytes;
use crate::data::DataView;
use crate::error::Error;
use vstd::prelude::*;

verus! {

/// A value that was stored with a deadline is read before the deadline, and
/// not from then on.
pub proof fn law_value_lives_until_its_deadline(
    s: Space,
    path: Seq<Seq<u8>>,
    key: Seq<u8>,
    value: Seq<u8>,
    deadline: u64,
    now: u64,
)
    requires
        ttl::put_expiring(s, path, key, value, deadline).0 is Ok,
    ensures
        ({
            let t = ttl::put_expiring(s, path, key, value, deadline).1.tree;
            &&& ttl::expires(t, key) == Ok::<Option<u64>, Error>(Some(deadline))
            &&& ttl::live(t, key, now) == Ok::<Option<Seq<u8>>, Error>(
                if deadline <= now {
                    None
                } else {
                    Some(value)
                },
            )
        }),
{
    names::law_names_differ();
    ttl::law_listed_key_parts(deadline, key);
}

/// Storing a value the ordinary way leaves a deadline as it is.
pub proof fn law_plain_put_keeps_deadline(
    s: Space,
    path: Seq<Seq<u8>>,
    key: Seq<u8>,
    value: Seq<u8>,
    other: Seq<u8>,
)
    requires
        bucket::put(s, path, key, value).0 is Ok,
        key != names::ttl_name(),
    ensures
        ttl::expires(bucket::put(s, path, key, value).1.tree, other) == ttl::expires(s.tree, other),
{
}

/// A key that was made persistent has no deadline, and its value is as it was.
pub proof fn law_cleared_key_is_persistent(t: Tree, key: Seq<u8>, now: u64)
    requires
        ttl::without_expiration(t, key).0 is Ok,
        !names::about_ttl(key),
        ttl::expires(t, key) is Ok,
        tree::child_of(t, names::ttl_name()) matches Ok(lookup) ==> !(lookup.items.contains_key(key)
            && lookup.items[key] is Bucket),
    ensures
        ({
            let after = ttl::without_expiration(t, key).1;
            &&& ttl::expires(after, key) == Ok::<Option<u64>, Error>(None)
            &&& tree::value_of(after, key) == tree::value_of(t, key)
            &&& ttl::live(after, key, now) == Ok::<Option<Seq<u8>>, Error>(tree::value_of(t, key))
        }),
{
    names::law_names_differ();
}

/// The deadlines under a bucket's keys.
pub open spec fn lookup(t: Tree) -> Tree {
    tree::child_of(t, names::ttl_name())->Ok_0
}

/// A bucket's list of deadlines.
pub open spec fn list(t: Tree) -> Tree {
    tree::child_of(t, names::deadlines_name())->Ok_0
}

/// Whether a list has just the keys that a bucket's deadlines give it.
pub open spec fn tallies(lookup: Tree, list: Tree) -> bool {
    &&& forall|k: Seq<u8>| #[trigger]
        lookup.items.contains_key(k) ==> (lookup.items[k] matches Item::Value(v) && v.len() == 8)
    &&& forall|q: Seq<u8>| #[trigger]
        list.items.contains_key(q) <==> q.len() >= 8 && tree::value_of(lookup, q.skip(8)) == Some(
            q.take(8),
        )
    &&& forall|q: Seq<u8>| #[trigger] list.items.contains_key(q) ==> list.items[q] is Value
}

/// Whether a bucket's list of deadlines agrees with the deadlines under its
/// keys.
pub open spec fn indexed(t: Tree) -> bool {
    ||| tree::child_of(t, names::ttl_name()) == Err::<Tree, Error>(Error::BucketMissing)
        && tree::child_of(t, names::deadlines_name()) == Err::<Tree, Error>(Error::BucketMissing)
    ||| tree::child_of(t, names::ttl_name()) is Ok && tree::child_of(t, names::deadlines_name()) is Ok
        && tallies(lookup(t), list(t))
}

proof fn lemma_listed_key_unique(q: Seq<u8>, key: Seq<u8>, stored: Seq<u8>)
    requires
        stored.len() == 8,
    ensures
        (q.len() >= 8 && q.skip(8) == key && q.take(8) == stored) <==> q == stored + key,
{
    if q.len() >= 8 && q.skip(8) == key && q.take(8) == stored {
        assert(q =~= q.take(8) + q.skip(8));
    }
    let w = stored + key;
    assert(w.take(8) =~= stored);
    assert(w.skip(8) =~= key);
}

/// A list agrees after a key's deadline was taken off and another noted.
proof fn lemma_tallies_put(
    before: Tree,
    before_list: Tree,
    after: Tree,
    after_list: Tree,
    key: Seq<u8>,
    stored: Seq<u8>,
)
    requires
        tallies(before, before_list),
        stored.len() == 8,
        after.items == before.items.insert(key, Item::Value(stored)),
        after_list.items == (match tree::value_of(before, key) {
            Some(old) => before_list.items.remove(old + key),
            None => before_list.items,
        }).insert(stored + key, Item::Value(Seq::empty())),
    ensures
        tallies(after, after_list),
{
    assert forall|q: Seq<u8>| #[trigger] after_list.items.contains_key(q) <==> q.len() >= 8
        && tree::value_of(after, q.skip(8)) == Some(q.take(8)) by {
        lemma_listed_key_unique(q, key, stored);
        assert(before_list.items.contains_key(q) <==> q.len() >= 8 && tree::value_of(
            before,
            q.skip(8),
        ) == Some(q.take(8)));
        match tree::value_of(before, key) {
            Some(old) => {
                assert(before.items.contains_key(key));
                lemma_listed_key_unique(q, key, old);
            },
            None => {
                if before.items.contains_key(key) {
                    assert(before.items[key] is Value);
                }
            },
        }
    }
}

/// Setting a deadline always works on a bucket whose list agrees; the list
/// agrees again, and no other key's deadline is touched.
pub proof fn law_deadlines_stay_listed(t: Tree, key: Seq<u8>, deadline: u64, other: Seq<u8>)
    requires
        indexed(t),
        other != key,
    ensures
        ({
            let (r, after) = ttl::with_expiration(t, key, deadline);
            &&& r is Ok
            &&& indexed(after)
            &&& ttl::expires(after, key) == Ok::<Option<u64>, Error>(Some(deadline))
            &&& ttl::expires(after, other) == ttl::expires(t, other)
        }),
{
    names::law_names_differ();
    ttl::law_listed_key_parts(deadline, key);
    bytes::lemma_be_of_len(deadline as nat, 8);
    let stored = ttl::deadline_bytes(deadline);
    let (r, after) = ttl::with_expiration(t, key, deadline);
    let empty = tree::empty_tree();
    if tree::child_of(t, names::ttl_name()) is Err {
        let t1 = tree::ensured(t, names::ttl_name())->Ok_0;
        assert(tree::value_of(empty, key) is None);
        assert(tallies(empty, empty));
        assert(lookup(after).items =~= empty.items.insert(key, Item::Value(stored)));
        assert(list(after).items =~= empty.items.insert(
            stored + key,
            Item::Value(Seq::empty()),
        ));
        lemma_tallies_put(empty, empty, lookup(after), list(after), key, stored);
    } else {
        let before = lookup(t);
        assert(tree::ensured(t, names::ttl_name()) == Ok::<Tree, Error>(t));
        if before.items.contains_key(key) {
            let old = tree::value_of(before, key)->Some_0;
            bytes::lemma_be_inverse(old);
            bytes::lemma_pow256_widths();
            let d = ttl::deadline_of(old)->Ok_0;
            assert(ttl::deadline_bytes(d) =~= old);
            lemma_listed_key_unique(old + key, key, old);
            assert(list(t).items.contains_key(old + key));
        }
        lemma_tallies_put(before, list(t), lookup(after), list(after), key, stored);
    }
}

/// Having a key expire no more always works on a bucket whose list agrees; the
/// list agrees again, and no other key's deadline is touched.
pub proof fn law_cleared_deadlines_are_unlisted(t: Tree, key: Seq<u8>, other: Seq<u8>)
    requires
        indexed(t),
        other != key,
    ensures
        ({
            let (r, after) = ttl::without_expiration(t, key);
            &&& r == Ok::<bool, Error>(ttl::expires(t, key)->Ok_0 is Some)
            &&& indexed(after)
            &&& ttl::expires(after, key) == Ok::<Option<u64>, Error>(None)
            &&& ttl::expires(after, other) == ttl::expires(t, other)
        }),
{
    names::law_names_differ();
    let (r, after) = ttl::without_expiration(t, key);
    if tree::child_of(t, names::ttl_name()) is Ok {
        let before = lookup(t);
        if before.items.contains_key(key) {
            let old = tree::value_of(before, key)->Some_0;
            bytes::lemma_be_inverse(old);
            bytes::lemma_pow256_widths();
            let d = ttl::deadline_of(old)->Ok_0;
            assert(ttl::deadline_bytes(d) =~= old);
            lemma_listed_key_unique(old + key, key, old);
            assert(list(t).items.contains_key(old + key));
            lemma_tallies_removed(before, list(t), lookup(after), list(after), key, old);
        }
    }
}

proof fn lemma_tallies_removed(
    before: Tree,
    before_list: Tree,
    after: Tree,
    after_list: Tree,
    key: Seq<u8>,
    old: Seq<u8>,
)
    requires
        tallies(before, before_list),
        tree::value_of(before, key) == Some(old),
        after.items == before.items.remove(key),
        after_list.items == before_list.items.remove(old + key),
    ensures
        tallies(after, after_list),
{
    assert forall|q: Seq<u8>| #[trigger] after_list.items.contains_key(q) <==> q.len() >= 8
        && tree::value_of(after, q.skip(8)) == Some(q.take(8)) by {
        assert(before.items.contains_key(key));
        lemma_listed_key_unique(q, key, old);
        assert(before_list.items.contains_key(q) <==> q.len() >= 8 && tree::value_of(
            before,
            q.skip(8),
        ) == Some(q.take(8)));
    }
}

/// Whether no key with a deadline is that of a nested bucket.
pub open spec fn expirable(t: Tree) -> bool {
    tree::child_of(t, names::ttl_name()) is Ok ==> forall|k: Seq<u8>| #[trigger]
        lookup(t).items.contains_key(k) ==> !(t.items.contains_key(k) && t.items[k] is Bucket)
}

/// A bucket whose keys expire in order.
pub open spec fn orderly(t: Tree) -> bool {
    &&& tree::child_of(t, names::ttl_name()) is Ok
    &&& tree::child_of(t, names::deadlines_name()) is Ok
    &&& tallies(lookup(t), list(t))
    &&& expirable(t)
}

/// What removing one key that has expired does.
proof fn lemma_expired(s: Space, path: Seq<Seq<u8>>, listed: Seq<u8>)
    requires
        orderly(s.tree),
        list(s.tree).items.contains_key(listed),
    ensures
        ({
            let (r, after) = ttl::expired(s, path, listed);
            let t = after.tree;
            let key = listed.skip(8);
            &&& r is Ok
            &&& orderly(t)
            &&& lookup(t).items == lookup(s.tree).items.remove(key)
            &&& list(t).items == list(s.tree).items.remove(listed)
            &&& forall|k: Seq<u8>|
                k != key && !names::about_ttl(k) ==> #[trigger] t.items.contains_key(k)
                    == s.tree.items.contains_key(k) && t.items[k] == s.tree.items[k]
            &&& !names::about_ttl(key) ==> !t.items.contains_key(key)
        }),
{
    names::law_names_differ();
    let key = listed.skip(8);
    let old = listed.take(8);
    let (r, after) = ttl::expired(s, path, listed);
    assert(tree::value_of(lookup(s.tree), key) == Some(old));
    assert(lookup(s.tree).items.contains_key(key));
    assert(listed =~= old + key);
    assert(list(s.tree).items[listed] is Value);
    lemma_tallies_removed(
        lookup(s.tree),
        list(s.tree),
        lookup(after.tree),
        list(after.tree),
        key,
        old,
    );
    assert forall|k: Seq<u8>| #[trigger] lookup(after.tree).items.contains_key(k) implies !(
    after.tree.items.contains_key(k) && after.tree.items[k] is Bucket) by {
        assert(lookup(s.tree).items.contains_key(k));
    }
}

/// What removing several keys that have expired does.
pub proof fn lemma_expired_all(s: Space, path: Seq<Seq<u8>>, keys: Seq<Seq<u8>>)
    requires
        orderly(s.tree),
        forall|i: int| 0 <= i < keys.len() ==> list(s.tree).items.contains_key(#[trigger] keys[i]),
        forall|i: int, j: int| 0 <= i < j < keys.len() ==> (#[trigger] keys[i]) != (
        #[trigger] keys[j]),
    ensures
        ({
            let (r, after) = ttl::expired_all(s, path, keys);
            let t = after.tree;
            &&& r is Ok
            &&& orderly(t)
            &&& forall|q: Seq<u8>| #[trigger]
                list(t).items.contains_key(q) <==> list(s.tree).items.contains_key(q)
                    && !keys.contains(q)
            &&& forall|k: Seq<u8>| #[trigger]
                lookup(t).items.contains_key(k) ==> lookup(s.tree).items.contains_key(k)
                    && lookup(t).items[k] == lookup(s.tree).items[k]
            &&& forall|k: Seq<u8>|
                !names::about_ttl(k) && lookup(t).items.contains_key(k)
                    == lookup(s.tree).items.contains_key(k) ==> #[trigger] t.items.contains_key(k)
                    == s.tree.items.contains_key(k) && t.items[k] == s.tree.items[k]
            &&& forall|k: Seq<u8>|
                !names::about_ttl(k) && lookup(s.tree).items.contains_key(k) && !lookup(
                    t,
                ).items.contains_key(k) ==> !(#[trigger] t.items.contains_key(k))
        }),
    decreases keys.len(),
{
    if keys.len() > 0 {
        let front = keys.drop_last();
        let last = keys.last();
        assert forall|i: int| 0 <= i < front.len() implies list(s.tree).items.contains_key(
            #[trigger] front[i],
        ) by {
            assert(front[i] == keys[i]);
        }
        assert forall|i: int, j: int| 0 <= i < j < front.len() implies (#[trigger] front[i]) != (
        #[trigger] front[j]) by {
            assert(keys[i] != keys[j]);
        }
        lemma_expired_all(s, path, front);
        let mid = ttl::expired_all(s, path, front).1;
        assert(!front.contains(last)) by {
            if front.contains(last) {
                let i = choose|i: int| 0 <= i < front.len() && front[i] == last;
                assert(keys[i] != keys[keys.len() - 1]);
            }
        }
        assert(list(s.tree).items.contains_key(keys[keys.len() - 1]));
        assert(list(mid.tree).items.contains_key(last));
        lemma_expired(mid, path, last);
        let end = ttl::expired_all(s, path, keys).1;
        assert forall|q: Seq<u8>| keys.contains(q) <==> front.contains(q) || q == last by {
            if front.contains(q) {
                let i = choose|i: int| 0 <= i < front.len() && front[i] == q;
                assert(keys[i] == q);
            }
            if q == last {
                assert(keys[keys.len() - 1] == q);
            }
            if keys.contains(q) {
                let i = choose|i: int| 0 <= i < keys.len() && keys[i] == q;
                if i < front.len() {
                    assert(front[i] == q);
                }
            }
        }
        let key = last.skip(8);
        assert(tree::value_of(lookup(mid.tree), key) == Some(last.take(8)));
        assert(lookup(mid.tree).items.contains_key(key));
    }
}

/// How many entries of a list of deadlines are due: each stands for one key.
pub open spec fn overdue(l: Seq<DataView>, now: u64) -> nat
    decreases l.len(),
{
    if l.len() == 0 {
        0
    } else {
        overdue(l.drop_last(), now) + if bytes::be_nat(l.last().key().take(8)) as u64 <= now {
            1nat
        } else {
            0nat
        }
    }
}

proof fn lemma_overdue(l: Seq<DataView>, now: u64, n: int)
    requires
        0 <= n <= l.len(),
        forall|i: int|
            0 <= i < n ==> bytes::be_nat((#[trigger] l[i]).key().take(8)) as u64 <= now,
    ensures
        overdue(l, now) >= n,
        (forall|i: int|
            n <= i < l.len() ==> bytes::be_nat((#[trigger] l[i]).key().take(8)) as u64 > now)
            ==> overdue(l, now) == n,
    decreases l.len(),
{
    if l.len() > 0 {
        let front = l.drop_last();
        let last = l.len() - 1;
        assert(l[last] == l.last());
        assert forall|i: int| 0 <= i < front.len() implies front[i] == l[i] by {}
        lemma_overdue(
            front,
            now,
            if n <= last {
                n
            } else {
                last
            },
        );
    }
}

/// Which keys of a list are due: the earliest, up to the limit; and when the
/// limit is not reached, all of them.
pub proof fn law_due_keys_are_the_earliest(l: Seq<DataView>, now: u64, limit: nat)
    requires
        cursor::in_order(l),
        forall|i: int| 0 <= i < l.len() ==> (#[trigger] l[i]) is KeyValue && l[i].key().len() >= 8,
    ensures
        ({
            let r = ttl::due(l, now, limit);
            &&& r is Ok
            &&& r->Ok_0.len() <= limit
            &&& r->Ok_0.len() <= l.len()
            &&& forall|i: int| 0 <= i < r->Ok_0.len() ==> #[trigger] r->Ok_0[i] == l[i].key()
                && bytes::be_nat(l[i].key().take(8)) as u64 <= now
            &&& r->Ok_0.len() < limit ==> forall|i: int|
                r->Ok_0.len() <= i < l.len() ==> bytes::be_nat((#[trigger] l[i]).key().take(8)) as u64
                    > now
        }),
    decreases l.len(),
{
    let r = ttl::due(l, now, limit);
    if limit > 0 && l.len() > 0 {
        let rest = l.drop_first();
        assert(l[0] is KeyValue);
        assert forall|i: int| 0 <= i < rest.len() implies (#[trigger] rest[i]) is KeyValue
            && rest[i].key().len() >= 8 by {
            assert(rest[i] == l[i + 1]);
        }
        assert(cursor::in_order(rest)) by {
            assert forall|i: int, j: int| 0 <= i < j < rest.len() implies bytes::lex_lt(
                (#[trigger] rest[i]).key(),
                (#[trigger] rest[j]).key(),
            ) by {
                assert(bytes::lex_lt(l[i + 1].key(), l[j + 1].key()));
            }
        }
        let first = bytes::be_nat(l[0].key().take(8)) as u64;
        if first > now {
            assert forall|i: int| 0 <= i < l.len() implies bytes::be_nat(
                (#[trigger] l[i]).key().take(8),
            ) as u64 > now by {
                if i > 0 {
                    assert(bytes::lex_lt(l[0].key(), l[i].key()));
                    lemma_earlier(l[0].key(), l[i].key());
                }
            }
        } else {
            law_due_keys_are_the_earliest(rest, now, (limit - 1) as nat);
            let tail = ttl::due(rest, now, (limit - 1) as nat)->Ok_0;
            assert forall|i: int| 0 <= i < r->Ok_0.len() implies #[trigger] r->Ok_0[i]
                == l[i].key() && bytes::be_nat(l[i].key().take(8)) as u64 <= now by {
                if i > 0 {
                    assert(r->Ok_0[i] == tail[i - 1]);
                    assert(rest[i - 1] == l[i]);
                }
            }
            if r->Ok_0.len() < limit {
                assert forall|i: int| r->Ok_0.len() <= i < l.len() implies bytes::be_nat(
                    (#[trigger] l[i]).key().take(8),
                ) as u64 > now by {
                    assert(rest[i - 1] == l[i]);
                }
            }
        }
    }
}

/// Keys in order are listed by their deadlines.
proof fn lemma_earlier(a: Seq<u8>, b: Seq<u8>)
    requires
        bytes::lex_lt(a, b),
        a.len() >= 8,
        b.len() >= 8,
    ensures
        bytes::be_nat(a.take(8)) as u64 <= bytes::be_nat(b.take(8)) as u64,
{
    bytes::lemma_be_inverse(a.take(8));
    bytes::lemma_be_inverse(b.take(8));
    bytes::lemma_pow256_widths();
    let x = bytes::be_nat(a.take(8));
    let y = bytes::be_nat(b.take(8));
    if x > y {
        bytes::lemma_be_order(b.take(8), a.take(8));
        assert(bytes::lex_lt(b.take(8), a.take(8)));
        bytes::lemma_lex_extends(b, a, 8);
        bytes::lemma_lex_transitive(a, b, a);
        bytes::lemma_lex_irreflexive(a);
    }
}

/// Whether the entries of a bucket can be listed in key order, as those of every
/// bucket in memory can.
pub open spec fn sorted(t: Tree) -> bool {
    bytemap::ascending(tree::listing(t)) && assoc::assoc(tree::listing(t)) == t.items
}

/// A bucket in memory can be listed.
pub proof fn lemma_node_sorted(node: Node)
    requires
        node.wf(),
    ensures
        sorted(node@),
{
    node.lemma_leaves();
}

/// Where each key that the list of deadlines holds is listed.
pub proof fn lemma_list_entries(t: Tree)
    requires
        sorted(t),
        forall|q: Seq<u8>| #[trigger]
            t.items.contains_key(q) ==> q.len() >= 8 && t.items[q] is Value,
    ensures
        cursor::in_order(cursor::data_in(t)),
        forall|i: int|
            0 <= i < cursor::data_in(t).len() ==> (#[trigger] cursor::data_in(t)[i]) is KeyValue
                && cursor::data_in(t)[i].key().len() >= 8 && t.items.contains_key(
                cursor::data_in(t)[i].key(),
            ),
        forall|q: Seq<u8>| #[trigger]
            t.items.contains_key(q) ==> exists|i: int|
                0 <= i < cursor::data_in(t).len() && #[trigger] cursor::data_in(t)[i].key() == q,
{
    let l = cursor::data_in(t);
    let e = tree::listing(t);
    bytemap::lemma_ascending_distinct(e);
    assert forall|i: int, j: int| 0 <= i < j < l.len() implies bytes::lex_lt(
        (#[trigger] l[i]).key(),
        (#[trigger] l[j]).key(),
    ) by {
        assert(bytes::lex_lt(e[i].0, e[j].0));
    }
    assert forall|i: int| 0 <= i < l.len() implies (#[trigger] l[i]) is KeyValue
        && l[i].key().len() >= 8 && t.items.contains_key(l[i].key()) by {
        assoc::lemma_assoc_at(e, i);
    }
    assert forall|q: Seq<u8>| #[trigger] t.items.contains_key(q) implies exists|i: int|
        0 <= i < l.len() && #[trigger] l[i].key() == q by {
        assoc::lemma_assoc_has(e, q);
        let i = choose|i: int| 0 <= i < e.len() && (#[trigger] e[i]).0 == q;
        assert(l[i].key() == q);
    }
}

/// Purging a bucket whose list of deadlines agrees always works, and the list
/// agrees again. It takes the keys that are due, or as many of them as the
/// limit allows; what it leaves with a
/// deadline has the deadline as before, and is not due unless the limit was
/// reached; a key that keeps its deadline, or had none, keeps its value, and one
/// that was taken has none.
pub proof fn law_purge_takes_what_is_due(
    node: Node,
    s: Space,
    path: Seq<Seq<u8>>,
    now: u64,
    limit: nat,
)
    requires
        orderly(s.tree),
        node.wf(),
        node@ == list(s.tree),
    ensures
        ({
            let (r, after) = ttl::purged(s, path, now, limit);
            let t = after.tree;
            &&& r is Ok
            &&& r->Ok_0 == (if overdue(cursor::data_in(list(s.tree)), now) < limit {
                overdue(cursor::data_in(list(s.tree)), now)
            } else {
                limit
            })
            &&& orderly(t)
            &&& forall|k: Seq<u8>| #[trigger]
                lookup(t).items.contains_key(k) ==> lookup(s.tree).items.contains_key(k)
                    && lookup(t).items[k] == lookup(s.tree).items[k]
            &&& r->Ok_0 < limit ==> forall|q: Seq<u8>| #[trigger]
                list(t).items.contains_key(q) ==> bytes::be_nat(q.take(8)) as u64 > now
            &&& forall|k: Seq<u8>|
                !names::about_ttl(k) && lookup(t).items.contains_key(k)
                    == lookup(s.tree).items.contains_key(k) ==> #[trigger] t.items.contains_key(k)
                    == s.tree.items.contains_key(k) && t.items[k] == s.tree.items[k]
            &&& forall|k: Seq<u8>|
                !names::about_ttl(k) && lookup(s.tree).items.contains_key(k) && !lookup(
                    t,
                ).items.contains_key(k) ==> !(#[trigger] t.items.contains_key(k))
        }),
{
    if limit > 0 {
        lemma_node_sorted(node);
        let l = cursor::data_in(list(s.tree));
        lemma_list_entries(list(s.tree));
        law_due_keys_are_the_earliest(l, now, limit);
        let keys = ttl::due(l, now, limit)->Ok_0;
        assert forall|i: int| 0 <= i < keys.len() implies bytes::be_nat(
            (#[trigger] l[i]).key().take(8),
        ) as u64 <= now by {
            assert(keys[i] == l[i].key());
        }
        lemma_overdue(l, now, keys.len() as int);
        assert(ttl::with_list(s.tree) == (Ok::<(), Error>(()), s.tree));
        assert forall|i: int| 0 <= i < keys.len() implies list(s.tree).items.contains_key(
            #[trigger] keys[i],
        ) by {
            assert(keys[i] == l[i].key());
        }
        assert forall|i: int, j: int| 0 <= i < j < keys.len() implies (#[trigger] keys[i]) != (
        #[trigger] keys[j]) by {
            assert(keys[i] == l[i].key());
            assert(keys[j] == l[j].key());
            assert(bytes::lex_lt(l[i].key(), l[j].key()));
            bytes::lemma_lex_irreflexive(l[i].key());
        }
        lemma_expired_all(s, path, keys);
        let t = ttl::expired_all(s, path, keys).1.tree;
        if keys.len() < limit {
            assert forall|q: Seq<u8>| #[trigger] list(t).items.contains_key(q) implies bytes::be_nat(
                q.take(8),
            ) as u64 > now by {
                assert(list(s.tree).items.contains_key(q));
                let i = choose|i: int| 0 <= i < l.len() && #[trigger] l[i].key() == q;
                if i < keys.len() {
                    assert(keys[i] == q);
                    assert(keys.contains(q));
                }
            }
        }
    }
}

/// Clearing a key's deadline tells whether there was one, and fails only where
/// it cannot be read.
pub proof fn law_clearing_tells_of_the_deadline(t: Tree, key: Seq<u8>)
    requires
        ttl::without_expiration(t, key).0 is Ok,
    ensures
        ttl::without_expiration(t, key).0 == Ok::<bool, Error>(
            ttl::expires(t, key) matches Ok(Some(_)),
        ),
        ttl::expires(t, key) is Ok,
        ttl::without_expiration(t, key).0 == Ok::<bool, Error>(false)
            ==> ttl::without_expiration(t, key).1 == t,
{
}

} // verus!
