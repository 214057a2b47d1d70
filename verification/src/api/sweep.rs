//! Removing expired keys from a bucket and all buckets within it.

use crate::api::bucket::{self, Space};
use crate::api::changes::{self, ChangeTracker};
use crate::api::cursor;
use crate::api::names::{self, is_ttl_bucket};
use crate::api::tree::{self, Item, Leaf, Node, Tree};
use crate::api::ttl::{self, purge_at};
use crate::bytes::owned;
use crate::data::DataView;
use crate::error::Error;
use vstd::prelude::*;

verus! {

/// The names of nested buckets in a list, but for those by which keys expire.
pub open spec fn bucket_names(l: Seq<DataView>) -> Seq<Seq<u8>>
    decreases l.len(),
{
    if l.len() == 0 {
        Seq::empty()
    } else {
        let front = bucket_names(l.drop_last());
        if l.last() is Bucket && !names::about_ttl(l.last().key()) {
            front.push(l.last().key())
        } else {
            front
        }
    }
}

/// Removing up to `limit` expired keys from a bucket and, where that leaves
/// room, from the buckets within it, one after the other; how many there were.
pub open spec fn swept(s: Space, path: Seq<Seq<u8>>, now: u64, limit: nat) -> (
    Result<nat, Error>,
    Space,
)
    decreases s.tree, 1nat, 0nat,
{
    if limit == 0 {
        (Ok(0), s)
    } else {
        match ttl::purged(s, path, now, limit) {
            (Err(e), after) => (Err(e), after),
            (Ok(n), after) => if n >= limit {
                (Ok(n), after)
            } else {
                swept_within(
                    s.tree,
                    after,
                    path,
                    bucket_names(cursor::data_in(s.tree)),
                    now,
                    limit,
                    n,
                )
            },
        }
    }
}

/// Removing expired keys from the nested buckets under `names`, of which there
/// may be `limit` in all, with those that were removed before.
pub open spec fn swept_within(
    t: Tree,
    s: Space,
    path: Seq<Seq<u8>>,
    names: Seq<Seq<u8>>,
    now: u64,
    limit: nat,
    removed: nat,
) -> (Result<nat, Error>, Space)
    decreases t, 0nat, names.len(),
{
    if names.len() == 0 || removed >= limit {
        (Ok(removed), s)
    } else {
        let name = names[0];
        if t.items.contains_key(name) {
            match t.items[name] {
                Item::Value(_) => (Err(Error::IncompatibleValue), s),
                Item::Bucket(child) => {
                    let (r, inner) = swept(
                        Space { tree: child, log: s.log },
                        path.push(name),
                        now,
                        (limit - removed) as nat,
                    );
                    let after = Space {
                        tree: tree::with_child(s.tree, name, inner.tree),
                        log: inner.log,
                    };
                    match r {
                        Err(e) => (Err(e), after),
                        Ok(n) => swept_within(
                            t,
                            after,
                            path,
                            names.drop_first(),
                            now,
                            limit,
                            removed + n,
                        ),
                    }
                },
            }
        } else {
            (Err(Error::BucketMissing), s)
        }
    }
}

/// Whether the nested buckets of `a`, but for those by which keys expire, are
/// in `b` too.
pub open spec fn keeps_buckets(a: Tree, b: Tree) -> bool {
    forall|n: Seq<u8>|
        !names::about_ttl(n) && #[trigger] a.items.contains_key(n) && a.items[n] is Bucket
            ==> b.items.contains_key(n) && b.items[n] == a.items[n]
}

proof fn lemma_expired_keeps(s: Space, path: Seq<Seq<u8>>, listed: Seq<u8>)
    ensures
        keeps_buckets(s.tree, ttl::expired(s, path, listed).1.tree),
{
}

proof fn lemma_expired_all_keeps(s: Space, path: Seq<Seq<u8>>, listed: Seq<Seq<u8>>)
    ensures
        keeps_buckets(s.tree, ttl::expired_all(s, path, listed).1.tree),
    decreases listed.len(),
{
    if listed.len() > 0 {
        lemma_expired_all_keeps(s, path, listed.drop_last());
        lemma_expired_keeps(ttl::expired_all(s, path, listed.drop_last()).1, path, listed.last());
    }
}

/// Purging a bucket leaves the buckets within it alone.
pub proof fn law_purge_keeps_buckets(s: Space, path: Seq<Seq<u8>>, now: u64, limit: nat)
    ensures
        keeps_buckets(s.tree, ttl::purged(s, path, now, limit).1.tree),
{
    let t = ttl::with_list(s.tree).1;
    let mid = Space { tree: t, ..s };
    assert(keeps_buckets(s.tree, t));
    if tree::child_of(t, names::deadlines_name()) is Ok {
        let list = tree::child_of(t, names::deadlines_name())->Ok_0;
        if ttl::due(cursor::data_in(list), now, limit) is Ok {
            lemma_expired_all_keeps(
                mid,
                path,
                ttl::due(cursor::data_in(list), now, limit)->Ok_0,
            );
        }
    }
}

/// Where the nested buckets of a list stand.
pub proof fn lemma_names(l: Seq<DataView>)
    requires
        cursor::in_order(l),
    ensures
        forall|j: int|
            0 <= j < bucket_names(l).len() ==> !names::about_ttl(#[trigger] bucket_names(l)[j])
                && exists|i: int|
                0 <= i < l.len() && #[trigger] l[i] == DataView::Bucket(bucket_names(l)[j]),
        forall|a: int, b: int|
            0 <= a < b < bucket_names(l).len() ==> (#[trigger] bucket_names(l)[a]) != (
            #[trigger] bucket_names(l)[b]),
    decreases l.len(),
{
    if l.len() > 0 {
        let front = l.drop_last();
        let p = bucket_names(front);
        let q = bucket_names(l);
        let n = l.len() - 1;
        assert(cursor::in_order(front)) by {
            assert forall|i: int, j: int| 0 <= i < j < front.len() implies crate::bytes::lex_lt(
                (#[trigger] front[i]).key(),
                (#[trigger] front[j]).key(),
            ) by {
                assert(crate::bytes::lex_lt(l[i].key(), l[j].key()));
            }
        }
        lemma_names(front);
        assert forall|j: int| 0 <= j < q.len() implies !names::about_ttl(#[trigger] q[j])
            && exists|i: int| 0 <= i < l.len() && #[trigger] l[i] == DataView::Bucket(q[j]) by {
            if j < p.len() {
                assert(q[j] == p[j]);
                let i = choose|i: int|
                    0 <= i < front.len() && #[trigger] front[i] == DataView::Bucket(p[j]);
                assert(l[i] == front[i]);
            } else {
                assert(l[n] == DataView::Bucket(q[j]));
            }
        }
        assert forall|a: int, b: int| 0 <= a < b < q.len() implies (#[trigger] q[a]) != (
        #[trigger] q[b]) by {
            if b < p.len() {
                assert(p[a] != p[b]);
            } else {
                assert(q[a] == p[a]);
                let i = choose|i: int|
                    0 <= i < front.len() && #[trigger] front[i] == DataView::Bucket(p[a]);
                assert(crate::bytes::lex_lt(l[i].key(), l[n].key()));
                crate::bytes::lemma_lex_irreflexive(l[n].key());
            }
        }
    }
}

/// The names of a bucket's nested buckets, but for those by which keys expire.
pub fn nested_names(node: &Node) -> (r: Vec<Vec<u8>>)
    requires
        node.wf(),
    ensures
        changes::path_view(r@) == bucket_names(cursor::data_in(node@)),
{
    let ghost l = cursor::data_in(node@);
    proof {
        crate::api::map::lemma_data_in_order(*node);
    }
    let mut out: Vec<Vec<u8>> = Vec::new();
    let mut i: usize = 0;
    assert(changes::path_view(out@) =~= bucket_names(l.take(0)));
    while i < node.len()
        invariant
            node.wf(),
            l == cursor::data_in(node@),
            l.len() == node.leaves().len(),
            i <= l.len(),
            changes::path_view(out@) == bucket_names(l.take(i as int)),
        decreases l.len() - i,
    {
        let ghost was = changes::path_view(out@);
        proof {
            node.lemma_leaves();
            assert(l.take(i + 1).drop_last() =~= l.take(i as int));
            assert(l.take(i + 1).last() == l[i as int]);
            assert(tree::listing(node@)[i as int] == (
                node.leaves()[i as int].0,
                node.leaves()[i as int].1.item(),
            ));
        }
        let key: &Vec<u8> = node.key_at(i);
        let leaf: &Leaf = node.leaf_at(i);
        proof {
            leaf.lemma_item();
        }
        match leaf {
            Leaf::Bucket(_) => {
                if !is_ttl_bucket(key) {
                    out.push(owned(key));
                    assert(changes::path_view(out@) =~= was.push(key@));
                }
            },
            Leaf::Kv(_) => {},
        }
        i = i + 1;
    }
    assert(l.take(i as int) =~= l);
    out
}

/// Where the named buckets of a bucket are.
proof fn lemma_named(node: Node)
    requires
        node.wf(),
    ensures
        ({
            let n = bucket_names(cursor::data_in(node@));
            &&& forall|j: int|
                0 <= j < n.len() ==> !names::about_ttl(#[trigger] n[j])
                    && node@.items.contains_key(n[j]) && node@.items[n[j]] is Bucket
            &&& forall|a: int, b: int|
                0 <= a < b < n.len() ==> (#[trigger] n[a]) != (#[trigger] n[b])
        }),
{
    crate::api::map::lemma_data_in_order(node);
    node.lemma_leaves();
    let l = cursor::data_in(node@);
    let n = bucket_names(l);
    lemma_names(l);
    assert forall|j: int| 0 <= j < n.len() implies !names::about_ttl(#[trigger] n[j])
        && node@.items.contains_key(n[j]) && node@.items[n[j]] is Bucket by {
        let i = choose|i: int| 0 <= i < l.len() && #[trigger] l[i] == DataView::Bucket(n[j]);
        assert(tree::listing(node@)[i] == (node.leaves()[i].0, node.leaves()[i].1.item()));
        assert(node@.items.contains_key(node.leaves()[i].0));
    }
}

/// Removes expired keys from the nested buckets under `names`.
fn sweep_within(
    node: &mut Node,
    log: &mut ChangeTracker,
    path: &Vec<Vec<u8>>,
    list: &Vec<Vec<u8>>,
    now: u64,
    limit: usize,
    before: usize,
    Ghost(t): Ghost<Tree>,
) -> (r: Result<usize, Error>)
    requires
        old(node).wf(),
        old(log).wf(),
        before <= limit,
        forall|j: int|
            0 <= j < list@.len() ==> t.items.contains_key((#[trigger] list@[j])@)
                && t.items[list@[j]@] is Bucket && old(node)@.items.contains_key(list@[j]@) && old(
                node,
            )@.items[list@[j]@] == t.items[list@[j]@],
        forall|a: int, b: int|
            0 <= a < b < list@.len() ==> (#[trigger] list@[a])@ != (#[trigger] list@[b])@,
    ensures
        final(node).wf(),
        final(log).wf(),
        ({
            let (want, after) = swept_within(
                t,
                bucket::space(*old(node), *old(log)),
                changes::path_view(path@),
                changes::path_view(list@),
                now,
                limit as nat,
                before as nat,
            );
            &&& bucket::space(*final(node), *final(log)) == after
            &&& match (r, want) {
                (Ok(n), Ok(m)) => n == m && n <= limit,
                (Err(e), Err(f)) => e == f,
                _ => false,
            }
        }),
    decreases t, 0nat, 0nat,
{
    let ghost at = changes::path_view(path@);
    let ghost all = changes::path_view(list@);
    let ghost whole = swept_within(
        t,
        bucket::space(*node, *log),
        at,
        all,
        now,
        limit as nat,
        before as nat,
    );
    let mut removed: usize = before;
    let mut i: usize = 0;
    assert(all.skip(0) =~= all);
    while i < list.len() && removed < limit
        invariant
            i <= list@.len(),
            removed <= limit,
            node.wf(),
            log.wf(),
            at == changes::path_view(path@),
            all == changes::path_view(list@),
            forall|j: int|
                i <= j < list@.len() ==> t.items.contains_key((#[trigger] list@[j])@)
                    && t.items[list@[j]@] is Bucket && node@.items.contains_key(list@[j]@)
                    && node@.items[list@[j]@] == t.items[list@[j]@],
            forall|a: int, b: int|
                0 <= a < b < list@.len() ==> (#[trigger] list@[a])@ != (#[trigger] list@[b])@,
            whole == swept_within(
                t,
                bucket::space(*old(node), *old(log)),
                changes::path_view(path@),
                changes::path_view(list@),
                now,
                limit as nat,
                before as nat,
            ),
            whole == swept_within(
                t,
                bucket::space(*node, *log),
                at,
                all.skip(i as int),
                now,
                limit as nat,
                removed as nat,
            ),
        decreases list@.len() - i,
    {
        let ghost was = node@;
        let ghost name = list@[i as int]@;
        proof {
            assert(all.skip(i as int)[0] == name);
            assert(all.skip(i as int).drop_first() =~= all.skip(i + 1));
            assert(t.items[name] is Bucket);
        }
        let below: Vec<Vec<u8>> = bucket::path_below(path, &list[i]);
        let r: Result<usize, Error> = match node.child_mut(&list[i]) {
            Err(e) => return Err(e),
            Ok(child) => {
                proof {
                    assert(child@ == t.items[name]->Bucket_0);
                    assert(decreases_to!(t => t.items[name]->Bucket_0));
                }
                sweep(child, log, &below, now, limit - removed)
            },
        };
        match r {
            Err(e) => return Err(e),
            Ok(n) => {
                removed = removed + n;
            },
        }
        i = i + 1;
    }
    Ok(removed)
}

/// Removes up to `limit` expired keys from a bucket and the buckets within it.
pub fn sweep(
    node: &mut Node,
    log: &mut ChangeTracker,
    path: &Vec<Vec<u8>>,
    now: u64,
    limit: usize,
) -> (r: Result<usize, Error>)
    requires
        old(node).wf(),
        old(log).wf(),
    ensures
        final(node).wf(),
        final(log).wf(),
        ({
            let (want, after) = swept(
                bucket::space(*old(node), *old(log)),
                changes::path_view(path@),
                now,
                limit as nat,
            );
            &&& bucket::space(*final(node), *final(log)) == after
            &&& match (r, want) {
                (Ok(n), Ok(m)) => n == m && n <= limit,
                (Err(e), Err(f)) => e == f,
                _ => false,
            }
        }),
    decreases old(node)@, 1nat, 0nat,
{
    if limit == 0 {
        return Ok(0);
    }
    let ghost t = node@;
    let list: Vec<Vec<u8>> = nested_names(node);
    proof {
        lemma_named(*node);
        law_purge_keeps_buckets(
            bucket::space(*node, *log),
            changes::path_view(path@),
            now,
            limit as nat,
        );
    }
    let removed: usize = match purge_at(node, log, path, now, limit) {
        Ok(removed) => removed,
        Err(e) => return Err(e),
    };
    if removed == limit {
        return Ok(removed);
    }
    proof {
        let n = changes::path_view(list@);
        assert forall|j: int| 0 <= j < list@.len() implies t.items.contains_key(
            (#[trigger] list@[j])@,
        ) && t.items[list@[j]@] is Bucket && node@.items.contains_key(list@[j]@)
            && node@.items[list@[j]@] == t.items[list@[j]@] by {
            assert(n[j] == list@[j]@);
        }
        assert forall|a: int, b: int| 0 <= a < b < list@.len() implies (#[trigger] list@[a])@ != (
        #[trigger] list@[b])@ by {
            assert(n[a] != n[b]);
        }
    }
    sweep_within(node, log, path, &list, now, limit, removed, Ghost(t))
}

/// Removes at most `limit` expired keys across every bucket of a root; the
/// root itself has none.
pub fn sweep_root(root: &mut Node, log: &mut ChangeTracker, now: u64, limit: usize) -> (r: Result<
    usize,
    Error,
>)
    requires
        old(root).wf(),
        old(log).wf(),
    ensures
        final(root).wf(),
        final(log).wf(),
        ({
            let (want, after) = swept_within(
                old(root)@,
                bucket::space(*old(root), *old(log)),
                Seq::empty(),
                bucket_names(cursor::data_in(old(root)@)),
                now,
                limit as nat,
                0,
            );
            &&& bucket::space(*final(root), *final(log)) == after
            &&& match (r, want) {
                (Ok(n), Ok(m)) => n == m && n <= limit,
                (Err(e), Err(f)) => e == f,
                _ => false,
            }
        }),
{
    let ghost t = root@;
    let list: Vec<Vec<u8>> = nested_names(root);
    let path: Vec<Vec<u8>> = Vec::new();
    proof {
        lemma_named(*root);
        assert(changes::path_view(path@) =~= Seq::<Seq<u8>>::empty());
        let n = changes::path_view(list@);
        assert forall|j: int| 0 <= j < list@.len() implies t.items.contains_key(
            (#[trigger] list@[j])@,
        ) && t.items[list@[j]@] is Bucket by {
            assert(n[j] == list@[j]@);
        }
        assert forall|a: int, b: int| 0 <= a < b < list@.len() implies (#[trigger] list@[a])@ != (
        #[trigger] list@[b])@ by {
            assert(n[a] != n[b]);
        }
    }
    sweep_within(root, log, &path, &list, now, limit, 0, Ghost(t))
}

} // verus!
