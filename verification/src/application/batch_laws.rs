//! What holds of groups of writes.

use crate::api::bucket::Space;
use crate::api::merge_deep_laws::ordinary;
use crate::api::merge_laws::alike;
use crate::api::names;
use crate::api::tree::{self, Item, Tree};
use crate::api::ttl;
use crate::application::batch::{self, OperationView};
use crate::application::open;
use crate::error::Error;
use vstd::prelude::*;

verus! {

/// What a write leaves under its key: a value with its deadline, or nothing.
pub struct Written {
    pub value: Option<Seq<u8>>,
    pub expires_at: Option<u64>,
}

/// What a write is to leave under its key.
pub open spec fn written_by(o: OperationView) -> Written {
    match o {
        OperationView::Insert { value, expires_at, .. } => Written {
            value: Some(value),
            expires_at,
        },
        OperationView::Remove { .. } => Written { value: None, expires_at: None },
    }
}

/// The path to the bucket that a write is for.
pub open spec fn path_of(o: OperationView) -> Seq<Seq<u8>> {
    match o {
        OperationView::Insert { path, .. } => path,
        OperationView::Remove { path, .. } => path,
    }
}

/// The key that a write is for.
pub open spec fn key_of(o: OperationView) -> Seq<u8> {
    match o {
        OperationView::Insert { key, .. } => key,
        OperationView::Remove { key, .. } => key,
    }
}

/// Whether a write is for an ordinary key of an ordinary bucket, and not for
/// those by which keys expire.
pub open spec fn ordinary_write(o: OperationView) -> bool {
    ordinary(path_of(o)) && !names::about_ttl(key_of(o))
}

/// Whether a key of the bucket that a path leads to has just what was written.
pub open spec fn holds(t: Tree, path: Seq<Seq<u8>>, key: Seq<u8>, w: Written) -> bool {
    tree::bucket_at(t, path) matches Some(b) && tree::value_of(b, key) == w.value && ttl::expires(
        b,
        key,
    ) == Ok::<Option<u64>, Error>(w.expires_at)
}

/// Whether a key of the bucket that a path leads to is the same in two
/// databases, with its deadline.
pub open spec fn same_at(a: Tree, b: Tree, path: Seq<Seq<u8>>, key: Seq<u8>) -> bool {
    &&& tree::bucket_at(a, path) is Some <==> tree::bucket_at(b, path) is Some
    &&& tree::bucket_at(a, path) is Some ==> {
        let x = tree::bucket_at(a, path)->0;
        let y = tree::bucket_at(b, path)->0;
        &&& tree::value_of(y, key) == tree::value_of(x, key)
        &&& ttl::expires(y, key) == ttl::expires(x, key)
    }
}

/// Setting a deadline touches nothing but what keys expire by.
pub proof fn lemma_timed_apart(t: Tree, key: Seq<u8>, d: u64, k: Seq<u8>)
    requires
        !names::about_ttl(k),
    ensures
        alike(t, ttl::with_expiration(t, key, d).1, k),
        k != key && ttl::with_expiration(t, key, d).0 is Ok ==> ttl::expires(
            ttl::with_expiration(t, key, d).1,
            k,
        ) == ttl::expires(t, k),
        ttl::with_expiration(t, key, d).0 is Ok ==> ttl::expires(
            ttl::with_expiration(t, key, d).1,
            key,
        ) == Ok::<Option<u64>, Error>(Some(d)),
{
    names::law_names_differ();
    ttl::law_listed_key_parts(d, key);
}

/// Clearing a deadline touches nothing but what keys expire by.
pub proof fn lemma_untimed_apart(t: Tree, key: Seq<u8>, k: Seq<u8>)
    requires
        !names::about_ttl(k),
    ensures
        alike(t, ttl::without_expiration(t, key).1, k),
        k != key && ttl::without_expiration(t, key).0 is Ok ==> ttl::expires(
            ttl::without_expiration(t, key).1,
            k,
        ) == ttl::expires(t, k),
        ttl::without_expiration(t, key).0 is Ok ==> ttl::expires(
            ttl::without_expiration(t, key).1,
            key,
        ) == Ok::<Option<u64>, Error>(None),
{
    names::law_names_differ();
}

/// A write leaves in its bucket what it is to leave there, and nothing else
/// changes.
proof fn lemma_performed(b: Space, o: OperationView, k: Seq<u8>)
    requires
        !names::about_ttl(key_of(o)),
        !names::about_ttl(k),
        batch::performed(b, o).0 is Ok,
    ensures
        ({
            let t = batch::performed(b, o).1.tree;
            &&& tree::value_of(t, key_of(o)) == written_by(o).value
            &&& ttl::expires(t, key_of(o)) == Ok::<Option<u64>, Error>(written_by(o).expires_at)
            &&& k != key_of(o) ==> alike(b.tree, t, k) && ttl::expires(t, k) == ttl::expires(
                b.tree,
                k,
            )
            &&& tree::child_of(b.tree, key_of(o)) is Ok ==> alike(b.tree, t, key_of(o))
            &&& tree::child_of(b.tree, key_of(o)) is Err ==> tree::child_of(t, key_of(o)) is Err
        }),
{
    names::law_names_differ();
    match o {
        OperationView::Insert { path, key, value, expires_at } => {
            let s = crate::api::bucket::put(b, path, key, value).1;
            match expires_at {
                Some(d) => {
                    lemma_timed_apart(s.tree, key, d, k);
                    lemma_timed_apart(s.tree, key, d, key);
                },
                None => {
                    lemma_untimed_apart(s.tree, key, k);
                    lemma_untimed_apart(s.tree, key, key);
                },
            }
            assert(ttl::expires(s.tree, k) == ttl::expires(b.tree, k));
        },
        OperationView::Remove { path, key } => {
            let s = if tree::value_of(b.tree, key) is Some {
                crate::api::bucket::delete(b, path, key).1
            } else {
                b
            };
            lemma_untimed_apart(s.tree, key, k);
            lemma_untimed_apart(s.tree, key, key);
            assert(ttl::expires(s.tree, k) == ttl::expires(b.tree, k));
        },
    }
}

/// The bucket at a path, by either way of looking it up.
pub proof fn lemma_at_path(t: Tree, path: Seq<Seq<u8>>)
    ensures
        open::at_path(t, path) is Ok <==> tree::bucket_at(t, path) is Some,
        open::at_path(t, path) is Ok ==> Some(open::at_path(t, path)->Ok_0) == tree::bucket_at(
            t,
            path,
        ),
    decreases path.len(),
{
    if path.len() > 0 && tree::child_of(t, path[0]) is Ok {
        lemma_at_path(tree::child_of(t, path[0])->Ok_0, path.drop_first());
    }
}

/// Replacing a bucket by one in which the nested buckets are the same changes
/// nothing elsewhere.
proof fn lemma_replaced(
    t: Tree,
    q: Seq<Seq<u8>>,
    sub: Tree,
    p: Seq<Seq<u8>>,
    k: Seq<u8>,
)
    requires
        tree::bucket_at(t, q) is Some,
        ordinary(q),
        ordinary(p),
        !names::about_ttl(k),
        forall|name: Seq<u8>|
            !names::about_ttl(name) ==> #[trigger] tree::child_of(sub, name) is Ok
                == tree::child_of(tree::bucket_at(t, q)->0, name) is Ok && (tree::child_of(
                sub,
                name,
            ) is Ok ==> tree::child_of(sub, name) == tree::child_of(
                tree::bucket_at(t, q)->0,
                name,
            )),
    ensures
        tree::bucket_at(open::with_at(t, q, sub), q) == Some(sub),
        p != q ==> same_at(t, open::with_at(t, q, sub), p, k),
    decreases q.len(),
{
    names::law_names_differ();
    let u = open::with_at(t, q, sub);
    if q.len() == 0 {
        if p.len() == 0 {
            assert(p =~= q);
        } else {
            assert(!names::about_ttl(p[0]));
            assert(tree::child_of(sub, p[0]) is Ok == tree::child_of(t, p[0]) is Ok);
            assert(tree::bucket_at(u, p) == tree::bucket_at(t, p));
        }
    } else {
        let name = q[0];
        let child = tree::child_of(t, name)->Ok_0;
        let rest = q.drop_first();
        assert(!names::about_ttl(q[0]));
        assert(ordinary(rest)) by {
            assert forall|i: int| 0 <= i < rest.len() implies !names::about_ttl(
                #[trigger] rest[i],
            ) by {
                assert(rest[i] == q[i + 1]);
            }
        }
        if p.len() == 0 {
            lemma_replaced(child, rest, sub, rest, k);
        } else {
            let tail = p.drop_first();
            assert(ordinary(tail)) by {
                assert forall|i: int| 0 <= i < tail.len() implies !names::about_ttl(
                    #[trigger] tail[i],
                ) by {
                    assert(tail[i] == p[i + 1]);
                }
            }
            lemma_replaced(child, rest, sub, tail, k);
            if p[0] == name {
                if tail == rest {
                    assert(p =~= seq![name] + tail);
                    assert(q =~= seq![name] + rest);
                }
            } else {
                assert(tree::bucket_at(u, p) == tree::bucket_at(t, p));
            }
        }
    }
}

/// A write leaves what it is to leave at its place, and nothing else changes.
pub proof fn law_write_is_done(s: Space, o: OperationView, p: Seq<Seq<u8>>, k: Seq<u8>)
    requires
        ordinary_write(o),
        batch::applied(s, o).0 is Ok,
        ordinary(p),
        !names::about_ttl(k),
    ensures
        holds(batch::applied(s, o).1.tree, path_of(o), key_of(o), written_by(o)),
        p != path_of(o) || k != key_of(o) ==> same_at(s.tree, batch::applied(s, o).1.tree, p, k),
{
    let q = path_of(o);
    lemma_at_path(s.tree, q);
    let sub = open::at_path(s.tree, q)->Ok_0;
    let b = Space { tree: sub, log: s.log };
    let t = batch::performed(b, o).1.tree;
    lemma_performed(b, o, k);
    assert forall|name: Seq<u8>| !names::about_ttl(name) implies #[trigger] tree::child_of(
        t,
        name,
    ) is Ok == tree::child_of(sub, name) is Ok && (tree::child_of(t, name) is Ok ==> tree::child_of(
        t,
        name,
    ) == tree::child_of(sub, name)) by {
        lemma_performed(b, o, name);
    }
    lemma_replaced(s.tree, q, t, p, k);
}

/// Whether no write from the `i`th on is for a key of a bucket.
pub open spec fn untouched_from(
    operations: Seq<OperationView>,
    i: int,
    path: Seq<Seq<u8>>,
    key: Seq<u8>,
) -> bool {
    forall|j: int|
        i <= j < operations.len() ==> path_of(#[trigger] operations[j]) != path || key_of(
            operations[j],
        ) != key
}

/// The last write for a key decides. After a batch was applied with success, the
/// bucket that the write was for holds under the key what was inserted last,
/// with the deadline that was given or none, or nothing if it was removed last.
pub proof fn law_last_write_decides(s: Space, operations: Seq<OperationView>, i: int)
    requires
        batch::applied_all(s, operations).0 is Ok,
        forall|j: int| 0 <= j < operations.len() ==> ordinary_write(#[trigger] operations[j]),
        0 <= i < operations.len(),
        untouched_from(operations, i + 1, path_of(operations[i]), key_of(operations[i])),
    ensures
        holds(
            batch::applied_all(s, operations).1.tree,
            path_of(operations[i]),
            key_of(operations[i]),
            written_by(operations[i]),
        ),
    decreases operations.len(),
{
    let front = operations.drop_last();
    let n = operations.len() - 1;
    let o = operations[i];
    let mid = batch::applied_all(s, front).1;
    assert(operations[n] == operations.last());
    law_write_is_done(mid, operations.last(), path_of(o), key_of(o));
    if i < n {
        assert forall|j: int| 0 <= j < front.len() implies ordinary_write(#[trigger] front[j]) by {
            assert(front[j] == operations[j]);
        }
        assert(front[i] == operations[i]);
        assert(untouched_from(front, i + 1, path_of(o), key_of(o))) by {
            assert forall|j: int| i + 1 <= j < front.len() implies path_of(#[trigger] front[j])
                != path_of(o) || key_of(front[j]) != key_of(o) by {
                assert(front[j] == operations[j]);
            }
        }
        law_last_write_decides(s, front, i);
        assert(path_of(operations[n]) != path_of(o) || key_of(operations[n]) != key_of(o));
    }
}

/// What a batch does not name stays as it was, with its deadline.
pub proof fn law_batch_leaves_the_rest(
    s: Space,
    operations: Seq<OperationView>,
    path: Seq<Seq<u8>>,
    key: Seq<u8>,
)
    requires
        batch::applied_all(s, operations).0 is Ok,
        forall|j: int| 0 <= j < operations.len() ==> ordinary_write(#[trigger] operations[j]),
        ordinary(path),
        !names::about_ttl(key),
        untouched_from(operations, 0, path, key),
    ensures
        same_at(s.tree, batch::applied_all(s, operations).1.tree, path, key),
    decreases operations.len(),
{
    if operations.len() > 0 {
        let front = operations.drop_last();
        let n = operations.len() - 1;
        assert(operations[n] == operations.last());
        assert forall|j: int| 0 <= j < front.len() implies ordinary_write(#[trigger] front[j]) by {
            assert(front[j] == operations[j]);
        }
        assert(untouched_from(front, 0, path, key)) by {
            assert forall|j: int| 0 <= j < front.len() implies path_of(#[trigger] front[j]) != path
                || key_of(front[j]) != key by {
                assert(front[j] == operations[j]);
            }
        }
        law_batch_leaves_the_rest(s, front, path, key);
        law_write_is_done(batch::applied_all(s, front).1, operations.last(), path, key);
        assert(path_of(operations[n]) != path || key_of(operations[n]) != key);
    }
}

/// Whether the deadlines of a bucket can be read: there are none, or each has
/// its eight bytes, and they are listed or not listed yet.
pub open spec fn orderly(b: Tree) -> bool {
    &&& match tree::child_of(b, names::ttl_name()) {
        Err(e) => e == Error::BucketMissing,
        Ok(lookup) => forall|k: Seq<u8>| #[trigger]
            lookup.items.contains_key(k) ==> (lookup.items[k] matches Item::Value(v) && v.len()
                == 8),
    }
    &&& match tree::child_of(b, names::deadlines_name()) {
        Err(e) => e == Error::BucketMissing,
        Ok(list) => forall|k: Seq<u8>| #[trigger]
            list.items.contains_key(k) ==> list.items[k] is Value,
    }
}

/// A write to a bucket that is there, whose deadlines can be read and in which
/// no nested bucket has the key, does not fail.
pub proof fn law_ordinary_writes_succeed(s: Space, o: OperationView)
    requires
        ordinary_write(o),
        tree::bucket_at(s.tree, path_of(o)) matches Some(b) && orderly(b) && !(
        b.items.contains_key(key_of(o)) && b.items[key_of(o)] is Bucket),
    ensures
        batch::applied(s, o).0 is Ok,
{
    lemma_at_path(s.tree, path_of(o));
    let sub = tree::bucket_at(s.tree, path_of(o))->0;
    let b = Space { tree: sub, log: s.log };
    let key = key_of(o);
    names::law_names_differ();
    crate::bytes::lemma_be_of_len(0, 8);
    match o {
        OperationView::Insert { path, value, expires_at, .. } => {
            let t = crate::api::bucket::put(b, path, key, value).1.tree;
            assert(orderly(t));
            match expires_at {
                Some(d) => lemma_timed(t, key, d),
                None => {},
            }
        },
        OperationView::Remove { path, .. } => {
            if tree::value_of(sub, key) is Some {
                let t = crate::api::bucket::delete(b, path, key).1.tree;
                assert(orderly(t));
            }
        },
    }
}

/// A deadline can be set where those that there are can be read.
proof fn lemma_timed(t: Tree, key: Seq<u8>, d: u64)
    requires
        orderly(t),
        !names::about_ttl(key),
    ensures
        ttl::with_expiration(t, key, d).0 is Ok,
{
    names::law_names_differ();
    let made = tree::ensured(t, names::ttl_name())->Ok_0;
    assert(orderly(made));
    match ttl::expires(made, key) {
        Ok(Some(was)) => {
            let u = ttl::unlisted(made, was, key).1;
            assert(ttl::unlisted(made, was, key).0 is Ok);
            assert(orderly(u));
        },
        _ => {},
    }
}

/// A group of writes ends with the first that fails, and what came before it is
/// done; a group of which none fails does not fail.
pub proof fn law_batch_ends_with_the_first_failure(
    s: Space,
    operations: Seq<OperationView>,
    i: int,
)
    requires
        0 <= i < operations.len(),
        batch::applied_all(s, operations.take(i)).0 is Ok,
    ensures
        batch::applied(batch::applied_all(s, operations.take(i)).1, operations[i]).0 is Err
            ==> batch::applied_all(s, operations) == batch::applied(
            batch::applied_all(s, operations.take(i)).1,
            operations[i],
        ),
        batch::applied(batch::applied_all(s, operations.take(i)).1, operations[i]).0 is Ok
            ==> batch::applied_all(s, operations.take(i + 1)).0 is Ok,
{
    assert(operations.take(i + 1).drop_last() =~= operations.take(i));
    assert(operations.take(i + 1).last() == operations[i]);
    if batch::applied_all(s, operations.take(i + 1)).0 is Err {
        batch::lemma_applied_all_stops(s, operations, i + 1);
    }
}

} // verus!
