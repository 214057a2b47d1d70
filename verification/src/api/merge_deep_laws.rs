//! What holds of merges at every depth.

use crate::api::bucket::Space;
use crate::api::merge::{self, MergeConflictPolicy, Merging};
use crate::api::merge_laws::{self, alike};
use crate::api::names;
use crate::api::tree::{self, Item, Tree};
use crate::api::ttl;
use crate::error::Error;
use crate::storage::pack_laws::listable;
use vstd::prelude::*;

verus! {

/// Whether a path goes through no bucket by which keys expire.
pub open spec fn ordinary(path: Seq<Seq<u8>>) -> bool {
    forall|i: int| 0 <= i < path.len() ==> !names::about_ttl(#[trigger] path[i])
}

/// The keys of a bucket, each once.
proof fn lemma_tree_keys(t: Tree)
    requires
        listable(t),
    ensures
        ({
            let keys = merge::keys_of(t);
            &&& forall|i: int, j: int|
                0 <= i < j < keys.len() ==> (#[trigger] keys[i]) != (#[trigger] keys[j])
            &&& forall|i: int| 0 <= i < keys.len() ==> t.items.contains_key(#[trigger] keys[i])
            &&& forall|k: Seq<u8>| #[trigger] t.items.contains_key(k) ==> keys.contains(k)
            &&& forall|k: Seq<u8>| keys.contains(k) ==> #[trigger] t.items.contains_key(k)
        }),
{
    let keys = merge::keys_of(t);
    let s = tree::listing(t);
    crate::bytemap::lemma_ascending_distinct(s);
    assert forall|i: int, j: int| 0 <= i < j < keys.len() implies (#[trigger] keys[i]) != (
    #[trigger] keys[j]) by {
        assert(s[i].0 != s[j].0);
    }
    assert forall|i: int| 0 <= i < keys.len() implies t.items.contains_key(#[trigger] keys[i]) by {
        crate::assoc::lemma_assoc_at(s, i);
    }
    assert forall|k: Seq<u8>| #[trigger] t.items.contains_key(k) implies keys.contains(k) by {
        crate::assoc::lemma_assoc_has(s, k);
        let i = choose|i: int| 0 <= i < s.len() && (#[trigger] s[i]).0 == k;
        assert(keys[i] == k);
    }
    assert forall|k: Seq<u8>| keys.contains(k) implies #[trigger] t.items.contains_key(k) by {
        let i = choose|i: int| 0 <= i < keys.len() && keys[i] == k;
        assert(t.items.contains_key(keys[i]));
    }
}

/// A nested bucket that can be listed.
pub proof fn lemma_child_listable(t: Tree, name: Seq<u8>)
    requires
        listable(t),
        tree::child_of(t, name) is Ok,
    ensures
        listable(tree::child_of(t, name)->Ok_0),
        decreases_to!(t => tree::child_of(t, name)->Ok_0),
{
    let l = tree::listing(t);
    crate::assoc::lemma_assoc_has(l, name);
    let i = choose|i: int| 0 <= i < l.len() && (#[trigger] l[i]).0 == name;
    assert(t.items.contains_key(l[i].0) && t.items[l[i].0] is Bucket);
    assert(decreases_to!(t => t.items[name]->Bucket_0));
}

/// What a destination has under a name for a source bucket to be merged into.
pub open spec fn met(t: Tree, name: Seq<u8>) -> Tree {
    match tree::child_of(t, name) {
        Ok(child) => child,
        Err(_) => tree::empty_tree(),
    }
}

/// What a merge of some keys makes of a nested bucket of the source: the bucket
/// is merged into the destination's of that name, or into a new one; only where
/// the destination's value is kept, is it left out.
proof fn lemma_items_child(
    source: Tree,
    keys: Seq<Seq<u8>>,
    m: Merging,
    path: Seq<Seq<u8>>,
    trail: Seq<Seq<u8>>,
    lookup: Option<Tree>,
    manage: bool,
    policy: MergeConflictPolicy,
    name: Seq<u8>,
) -> (inner: Merging)
    requires
        !names::about_ttl(name),
        forall|i: int, j: int| 0 <= i < j < keys.len() ==> (#[trigger] keys[i]) != (
        #[trigger] keys[j]),
        forall|i: int| 0 <= i < keys.len() ==> source.items.contains_key(#[trigger] keys[i]),
        keys.contains(name),
        tree::child_of(source, name) is Ok,
        merge::merged_items(source, keys, m, path, trail, lookup, manage, policy).0 is Ok,
    ensures
        ({
            let child = tree::child_of(source, name)->Ok_0;
            let after = merge::merged_items(
                source,
                keys,
                m,
                path,
                trail,
                lookup,
                manage,
                policy,
            ).1.space.tree;
            let done = merge::merged(child, inner, path.push(name), trail.push(name), policy);
            if tree::value_of(m.space.tree, name) is Some && policy
                != MergeConflictPolicy::Overwrite {
                policy == MergeConflictPolicy::KeepExisting && alike(m.space.tree, after, name)
            } else {
                &&& inner.space.tree == met(m.space.tree, name)
                &&& done.0 is Ok
                &&& tree::child_of(after, name) == Ok::<Tree, Error>(done.1.space.tree)
            }
        }),
    decreases keys.len(),
{
    names::law_names_differ();
    let key = keys[0];
    let rest = keys.drop_first();
    assert(keys.len() > 0 && source.items.contains_key(keys[0]));
    assert forall|i: int, j: int| 0 <= i < j < rest.len() implies (#[trigger] rest[i]) != (
    #[trigger] rest[j]) by {
        assert(keys[i + 1] != keys[j + 1]);
    }
    assert forall|i: int| 0 <= i < rest.len() implies source.items.contains_key(
        #[trigger] rest[i],
    ) by {
        assert(rest[i] == keys[i + 1]);
    }
    assert(name == key || rest.contains(name)) by {
        let i = choose|i: int| 0 <= i < keys.len() && keys[i] == name;
        if i > 0 {
            assert(rest[i - 1] == name);
        }
    }
    assert(!rest.contains(key)) by {
        if rest.contains(key) {
            let i = choose|i: int| 0 <= i < rest.len() && rest[i] == key;
            assert(keys[0] != keys[i + 1]);
        }
    }
    match source.items[key] {
        Item::Value(value) => {
            merge_laws::lemma_pair_apart(
                m,
                path,
                trail,
                key,
                value,
                lookup,
                manage,
                policy,
                name,
            );
            let after = merge::merged_pair(
                m,
                path,
                trail,
                key,
                value,
                lookup,
                manage,
                policy,
            ).1;
            lemma_items_child(source, rest, after, path, trail, lookup, manage, policy, name)
        },
        Item::Bucket(child) => {
            if names::about_ttl(key) {
                lemma_items_child(source, rest, m, path, trail, lookup, manage, policy, name)
            } else {
                let (r, after) = merge::placed_bucket(m, path, trail, key, policy);
                let below = tree::child_of(after.space.tree, key)->Ok_0;
                let into = Merging {
                    space: Space { tree: below, log: after.space.log },
                    report: after.report,
                };
                let inner = merge::merged(child, into, path.push(key), trail.push(key), policy).1;
                let end = if r == Ok::<bool, merge::Stop>(true) {
                    Merging {
                        space: Space {
                            tree: tree::with_child(after.space.tree, key, inner.space.tree),
                            log: inner.space.log,
                        },
                        report: inner.report,
                    }
                } else {
                    after
                };
                if key == name {
                    merge_laws::lemma_items_apart(
                        source,
                        rest,
                        end,
                        path,
                        trail,
                        lookup,
                        manage,
                        policy,
                        name,
                    );
                    into
                } else {
                    lemma_items_child(source, rest, end, path, trail, lookup, manage, policy, name)
                }
            }
        },
    }
}

/// What merging a value of the source leaves under its key.
proof fn lemma_pair_value(
    m: Merging,
    path: Seq<Seq<u8>>,
    trail: Seq<Seq<u8>>,
    key: Seq<u8>,
    value: Seq<u8>,
    lookup: Option<Tree>,
    manage: bool,
    policy: MergeConflictPolicy,
)
    requires
        !names::about_ttl(key),
        merge::merged_pair(m, path, trail, key, value, lookup, manage, policy).0 is Ok,
    ensures
        ({
            let t = m.space.tree;
            let after = merge::merged_pair(
                m,
                path,
                trail,
                key,
                value,
                lookup,
                manage,
                policy,
            ).1.space.tree;
            if policy == MergeConflictPolicy::Overwrite || !t.items.contains_key(key) {
                tree::value_of(after, key) == Some(value)
            } else {
                &&& alike(t, after, key)
                &&& policy == MergeConflictPolicy::Error ==> tree::value_of(t, key) == Some(value)
            }
        }),
{
    names::law_names_differ();
    let d = merge::source_deadline(lookup, key)->Ok_0;
    let after = merge::merged_value(m, path, trail, key, value, d, policy).1;
    merge_laws::lemma_deadline_apart(after.space.tree, key, d, manage, key);
}

/// What a merge of some keys leaves under a key that has a value at the source.
proof fn lemma_items_value(
    source: Tree,
    keys: Seq<Seq<u8>>,
    m: Merging,
    path: Seq<Seq<u8>>,
    trail: Seq<Seq<u8>>,
    lookup: Option<Tree>,
    manage: bool,
    policy: MergeConflictPolicy,
    k: Seq<u8>,
)
    requires
        !names::about_ttl(k),
        forall|i: int, j: int| 0 <= i < j < keys.len() ==> (#[trigger] keys[i]) != (
        #[trigger] keys[j]),
        forall|i: int| 0 <= i < keys.len() ==> source.items.contains_key(#[trigger] keys[i]),
        keys.contains(k),
        tree::value_of(source, k) is Some,
        merge::merged_items(source, keys, m, path, trail, lookup, manage, policy).0 is Ok,
    ensures
        ({
            let t = m.space.tree;
            let after = merge::merged_items(
                source,
                keys,
                m,
                path,
                trail,
                lookup,
                manage,
                policy,
            ).1.space.tree;
            if policy == MergeConflictPolicy::Overwrite || !t.items.contains_key(k) {
                tree::value_of(after, k) == tree::value_of(source, k)
            } else {
                &&& alike(t, after, k)
                &&& policy == MergeConflictPolicy::Error ==> tree::value_of(t, k)
                    == tree::value_of(source, k)
            }
        }),
    decreases keys.len(),
{
    names::law_names_differ();
    let key = keys[0];
    let rest = keys.drop_first();
    assert(keys.len() > 0 && source.items.contains_key(keys[0]));
    assert forall|i: int, j: int| 0 <= i < j < rest.len() implies (#[trigger] rest[i]) != (
    #[trigger] rest[j]) by {
        assert(keys[i + 1] != keys[j + 1]);
    }
    assert forall|i: int| 0 <= i < rest.len() implies source.items.contains_key(
        #[trigger] rest[i],
    ) by {
        assert(rest[i] == keys[i + 1]);
    }
    assert(k == key || rest.contains(k)) by {
        let i = choose|i: int| 0 <= i < keys.len() && keys[i] == k;
        if i > 0 {
            assert(rest[i - 1] == k);
        }
    }
    assert(!rest.contains(key)) by {
        if rest.contains(key) {
            let i = choose|i: int| 0 <= i < rest.len() && rest[i] == key;
            assert(keys[0] != keys[i + 1]);
        }
    }
    match source.items[key] {
        Item::Value(value) => {
            merge_laws::lemma_pair_apart(m, path, trail, key, value, lookup, manage, policy, k);
            let after = merge::merged_pair(
                m,
                path,
                trail,
                key,
                value,
                lookup,
                manage,
                policy,
            ).1;
            if key == k {
                lemma_pair_value(m, path, trail, key, value, lookup, manage, policy);
                merge_laws::lemma_items_apart(
                    source,
                    rest,
                    after,
                    path,
                    trail,
                    lookup,
                    manage,
                    policy,
                    k,
                );
            } else {
                lemma_items_value(source, rest, after, path, trail, lookup, manage, policy, k);
            }
        },
        Item::Bucket(child) => {
            if names::about_ttl(key) {
                lemma_items_value(source, rest, m, path, trail, lookup, manage, policy, k);
            } else {
                let (r, after) = merge::placed_bucket(m, path, trail, key, policy);
                let into = Merging {
                    space: Space {
                        tree: tree::child_of(after.space.tree, key)->Ok_0,
                        log: after.space.log,
                    },
                    report: after.report,
                };
                let inner = merge::merged(child, into, path.push(key), trail.push(key), policy).1;
                let end = if r == Ok::<bool, merge::Stop>(true) {
                    Merging {
                        space: Space {
                            tree: tree::with_child(after.space.tree, key, inner.space.tree),
                            log: inner.space.log,
                        },
                        report: inner.report,
                    }
                } else {
                    after
                };
                lemma_items_value(source, rest, end, path, trail, lookup, manage, policy, k);
            }
        },
    }
}

/// How the keys of a bucket are merged.
spec fn managed(source: Tree, t: Tree) -> bool {
    match merge::lookup_of(t) {
        Err(_) => true,
        Ok(own) => merge::lookup_of(source)->Ok_0 is Some || own is Some,
    }
}

proof fn lemma_merged(
    source: Tree,
    m: Merging,
    path: Seq<Seq<u8>>,
    trail: Seq<Seq<u8>>,
    policy: MergeConflictPolicy,
)
    requires
        merge::merged(source, m, path, trail, policy).0 is Ok,
    ensures
        merge::lookup_of(source) is Ok,
        merge::merged(source, m, path, trail, policy) == merge::merged_items(
            source,
            merge::keys_of(source),
            m,
            path,
            trail,
            merge::lookup_of(source)->Ok_0,
            managed(source, m.space.tree),
            policy,
        ),
{
}

/// Whether what a merge left is right at the end of a path, by what the source
/// and the destination had there. A value of the source is at the destination
/// where the source overwrites, and where there was nothing; what is to be kept
/// is kept; where conflicts are errors, a value of the source met nothing, or
/// itself. Where the source has nothing, the destination is as it was; and no
/// value comes from anywhere else.
pub open spec fn merged_right(
    source: Tree,
    before: Tree,
    after: Tree,
    policy: MergeConflictPolicy,
    p: Seq<Seq<u8>>,
    k: Seq<u8>,
) -> bool {
    let from = tree::value_at(source, p, k);
    let was = tree::value_at(before, p, k);
    let now = tree::value_at(after, p, k);
    &&& match policy {
        MergeConflictPolicy::Overwrite => from is Some ==> now == from,
        MergeConflictPolicy::KeepExisting => {
            &&& was is Some ==> now == was
            &&& from is Some && tree::vacant(before, p, k) ==> now == from
        },
        MergeConflictPolicy::Error => from is Some ==> now == from && (was == from || tree::vacant(
            before,
            p,
            k,
        )),
    }
    &&& tree::vacant(source, p, k) ==> now == was
    &&& now == from || now == was || now is None
}

/// Whether the buckets of the source at the end of a path are at the
/// destination, and no others are new.
pub open spec fn buckets_merged_right(
    source: Tree,
    before: Tree,
    after: Tree,
    policy: MergeConflictPolicy,
    p: Seq<Seq<u8>>,
) -> bool {
    let from = tree::bucket_at(source, p) is Some;
    let was = tree::bucket_at(before, p) is Some;
    let now = tree::bucket_at(after, p) is Some;
    &&& match policy {
        MergeConflictPolicy::KeepExisting => {
            &&& was ==> now
            &&& from && tree::unobstructed(before, p) ==> now
        },
        _ => from ==> now,
    }
    &&& now ==> from || was
}

/// A merge that succeeds reaches every depth: it is right for every value at
/// the end of every path, and for every bucket.
pub proof fn law_merge_reaches_every_depth(
    source: Tree,
    m: Merging,
    path: Seq<Seq<u8>>,
    trail: Seq<Seq<u8>>,
    policy: MergeConflictPolicy,
    p: Seq<Seq<u8>>,
    k: Seq<u8>,
)
    requires
        listable(source),
        ordinary(p),
        !names::about_ttl(k),
        merge::merged(source, m, path, trail, policy).0 is Ok,
    ensures
        ({
            let after = merge::merged(source, m, path, trail, policy).1.space.tree;
            &&& merged_right(source, m.space.tree, after, policy, p, k)
            &&& buckets_merged_right(source, m.space.tree, after, policy, p)
        }),
    decreases p.len(),
{
    let before = m.space.tree;
    let after = merge::merged(source, m, path, trail, policy).1.space.tree;
    let keys = merge::keys_of(source);
    let lookup = merge::lookup_of(source)->Ok_0;
    let manage = managed(source, before);
    lemma_merged(source, m, path, trail, policy);
    lemma_tree_keys(source);
    let at = if p.len() == 0 {
        k
    } else {
        p[0]
    };
    merge_laws::lemma_items_apart(source, keys, m, path, trail, lookup, manage, policy, at);
    if tree::value_of(source, at) is Some {
        lemma_items_value(source, keys, m, path, trail, lookup, manage, policy, at);
    }
    let inner = if tree::child_of(source, at) is Ok {
        lemma_items_child(source, keys, m, path, trail, lookup, manage, policy, at)
    } else {
        m
    };
    if p.len() > 0 && tree::child_of(source, at) is Ok {
        let rest = p.drop_first();
        let child = tree::child_of(source, at)->Ok_0;
        assert(ordinary(rest)) by {
            assert forall|i: int| 0 <= i < rest.len() implies !names::about_ttl(
                #[trigger] rest[i],
            ) by {
                assert(rest[i] == p[i + 1]);
            }
        }
        lemma_child_listable(source, at);
        lemma_met(before, at, rest, k);
        if !(tree::value_of(before, at) is Some && policy != MergeConflictPolicy::Overwrite) {
            law_merge_reaches_every_depth(
                child,
                inner,
                path.push(at),
                trail.push(at),
                policy,
                rest,
                k,
            );
        }
    }
}

/// What is met under a name is what is there, or nothing.
proof fn lemma_met(t: Tree, name: Seq<u8>, rest: Seq<Seq<u8>>, k: Seq<u8>)
    ensures
        tree::value_of(t, name) is None ==> {
            &&& tree::value_at(met(t, name), rest, k) == tree::value_at(t, seq![name] + rest, k)
            &&& tree::vacant(met(t, name), rest, k) == tree::vacant(t, seq![name] + rest, k)
            &&& tree::unobstructed(met(t, name), rest) == tree::unobstructed(
                t,
                seq![name] + rest,
            )
        },
{
    let p = seq![name] + rest;
    assert(p.drop_first() =~= rest);
    assert(p[0] == name);
}

/// Deadlines follow the winning key at every depth, in the bucket at the end of
/// every path that the source has too. A value that gives way to a bucket
/// leaves none.
pub proof fn law_deadlines_follow_at_every_depth(
    source: Tree,
    m: Merging,
    path: Seq<Seq<u8>>,
    trail: Seq<Seq<u8>>,
    policy: MergeConflictPolicy,
    p: Seq<Seq<u8>>,
    k: Seq<u8>,
)
    requires
        listable(source),
        ordinary(p),
        !names::about_ttl(k),
        tree::bucket_at(source, p) is Some,
        merge_laws::reserved(tree::bucket_at(source, p)->0),
        tree::unobstructed(m.space.tree, p) || policy == MergeConflictPolicy::Overwrite,
        merge::merged(source, m, path, trail, policy).0 is Ok,
    ensures
        ({
            let from = tree::bucket_at(source, p)->0;
            let was = match tree::bucket_at(m.space.tree, p) {
                Some(b) => b,
                None => tree::empty_tree(),
            };
            let after = merge::merged(source, m, path, trail, policy).1.space.tree;
            let now = tree::bucket_at(after, p)->0;
            &&& tree::bucket_at(after, p) is Some
            &&& !from.items.contains_key(k) ==> ttl::expires(now, k) == ttl::expires(was, k)
            &&& tree::value_of(from, k) is Some && (policy == MergeConflictPolicy::Overwrite
                || !was.items.contains_key(k)) ==> ttl::expires(now, k) == ttl::expires(from, k)
            &&& from.items.contains_key(k) && from.items[k] is Bucket && policy
                == MergeConflictPolicy::Overwrite && tree::value_of(was, k) is Some
                ==> ttl::expires(now, k) == Ok::<Option<u64>, Error>(None)
            &&& policy == MergeConflictPolicy::KeepExisting && was.items.contains_key(k)
                ==> ttl::expires(now, k) == ttl::expires(was, k)
            &&& now.next_int >= from.next_int && now.next_int >= was.next_int
        }),
    decreases p.len(),
{
    let before = m.space.tree;
    let keys = merge::keys_of(source);
    let lookup = merge::lookup_of(source)->Ok_0;
    let manage = managed(source, before);
    lemma_merged(source, m, path, trail, policy);
    lemma_tree_keys(source);
    lemma_items_count(source, keys, m, path, trail, lookup, manage, policy);
    if p.len() == 0 {
        assert(merge::source_deadline(lookup, k) == ttl::expires(source, k));
        merge_laws::lemma_items_deadline(
            source,
            keys,
            m,
            path,
            trail,
            lookup,
            manage,
            policy,
            k,
        );
    } else {
        let at = p[0];
        let rest = p.drop_first();
        let child = tree::child_of(source, at)->Ok_0;
        assert(ordinary(rest)) by {
            assert forall|i: int| 0 <= i < rest.len() implies !names::about_ttl(
                #[trigger] rest[i],
            ) by {
                assert(rest[i] == p[i + 1]);
            }
        }
        let inner = lemma_items_child(
            source,
            keys,
            m,
            path,
            trail,
            lookup,
            manage,
            policy,
            at,
        );
        lemma_child_listable(source, at);
        lemma_empty_path(rest);
        law_deadlines_follow_at_every_depth(
            child,
            inner,
            path.push(at),
            trail.push(at),
            policy,
            rest,
            k,
        );
    }
}

proof fn lemma_empty_path(p: Seq<Seq<u8>>)
    ensures
        p.len() > 0 ==> tree::bucket_at(tree::empty_tree(), p) is None,
        tree::unobstructed(tree::empty_tree(), p),
{
}

/// Setting or clearing a deadline leaves the counter of a bucket alone, or
/// raises it.
proof fn lemma_deadline_count(t: Tree, key: Seq<u8>, d: Option<u64>, manage: bool)
    ensures
        merge::with_source_deadline(t, key, d, manage).1.next_int >= t.next_int,
{
}

/// Merging does not lower the counter of a bucket, and in the end it is not
/// below that of the source.
proof fn lemma_items_count(
    source: Tree,
    keys: Seq<Seq<u8>>,
    m: Merging,
    path: Seq<Seq<u8>>,
    trail: Seq<Seq<u8>>,
    lookup: Option<Tree>,
    manage: bool,
    policy: MergeConflictPolicy,
)
    ensures
        ({
            let (r, after) = merge::merged_items(
                source,
                keys,
                m,
                path,
                trail,
                lookup,
                manage,
                policy,
            );
            &&& after.space.tree.next_int >= m.space.tree.next_int
            &&& r is Ok ==> after.space.tree.next_int >= source.next_int
        }),
    decreases keys.len(),
{
    if keys.len() > 0 {
        let key = keys[0];
        let rest = keys.drop_first();
        if source.items.contains_key(key) {
            match source.items[key] {
                Item::Value(value) => {
                    if merge::source_deadline(lookup, key) is Ok {
                        let d = merge::source_deadline(lookup, key)->Ok_0;
                        let after = merge::merged_value(
                            m,
                            path,
                            trail,
                            key,
                            value,
                            d,
                            policy,
                        ).1;
                        lemma_deadline_count(after.space.tree, key, d, manage);
                    }
                    let after = merge::merged_pair(
                        m,
                        path,
                        trail,
                        key,
                        value,
                        lookup,
                        manage,
                        policy,
                    ).1;
                    lemma_items_count(source, rest, after, path, trail, lookup, manage, policy);
                },
                Item::Bucket(child) => {
                    let (r, after) = merge::placed_bucket(m, path, trail, key, policy);
                    let into = Merging {
                        space: Space {
                            tree: tree::child_of(after.space.tree, key)->Ok_0,
                            log: after.space.log,
                        },
                        report: after.report,
                    };
                    let inner = merge::merged(
                        child,
                        into,
                        path.push(key),
                        trail.push(key),
                        policy,
                    ).1;
                    let end = Merging {
                        space: Space {
                            tree: tree::with_child(after.space.tree, key, inner.space.tree),
                            log: inner.space.log,
                        },
                        report: inner.report,
                    };
                    lemma_items_count(source, rest, m, path, trail, lookup, manage, policy);
                    lemma_items_count(source, rest, after, path, trail, lookup, manage, policy);
                    lemma_items_count(source, rest, end, path, trail, lookup, manage, policy);
                },
            }
        } else {
            lemma_items_count(source, rest, m, path, trail, lookup, manage, policy);
        }
    }
}

/// What a merge of root buckets leaves under a name: the bucket of the source
/// merged into the destination's, or into a new one; and what the source does
/// not have, and the journal, as it was.
proof fn lemma_roots(
    source: Tree,
    keys: Seq<Seq<u8>>,
    m: Merging,
    policy: MergeConflictPolicy,
    name: Seq<u8>,
) -> (inner: Merging)
    requires
        forall|i: int, j: int| 0 <= i < j < keys.len() ==> (#[trigger] keys[i]) != (
        #[trigger] keys[j]),
        merge::merged_roots(source, keys, m, policy).0 is Ok,
    ensures
        ({
            let t = m.space.tree;
            let after = merge::merged_roots(source, keys, m, policy).1.space.tree;
            if keys.contains(name) && tree::child_of(source, name) is Ok && name
                != names::journal_name() {
                let child = tree::child_of(source, name)->Ok_0;
                let done = merge::merged(child, inner, seq![name], seq![name], policy);
                &&& tree::value_of(t, name) is None
                &&& inner.space.tree == met(t, name)
                &&& done.0 is Ok
                &&& tree::child_of(after, name) == Ok::<Tree, Error>(done.1.space.tree)
            } else {
                alike(t, after, name)
            }
        }),
    decreases keys.len(),
{
    if keys.len() == 0 {
        m
    } else {
        let key = keys[0];
        let rest = keys.drop_first();
        assert forall|i: int, j: int| 0 <= i < j < rest.len() implies (#[trigger] rest[i]) != (
        #[trigger] rest[j]) by {
            assert(keys[i + 1] != keys[j + 1]);
        }
        assert(keys.contains(name) <==> name == key || rest.contains(name)) by {
            if keys.contains(name) {
                let i = choose|i: int| 0 <= i < keys.len() && keys[i] == name;
                if i > 0 {
                    assert(rest[i - 1] == name);
                }
            }
            if rest.contains(name) {
                let i = choose|i: int| 0 <= i < rest.len() && rest[i] == name;
                assert(keys[i + 1] == name);
            }
            if name == key {
                assert(keys[0] == name);
            }
        }
        assert(!rest.contains(key)) by {
            if rest.contains(key) {
                let i = choose|i: int| 0 <= i < rest.len() && rest[i] == key;
                assert(keys[0] != keys[i + 1]);
            }
        }
        if tree::child_of(source, key) is Err || key == names::journal_name() {
            lemma_roots(source, rest, m, policy, name)
        } else {
            let child = tree::child_of(source, key)->Ok_0;
            let after = merge::merged_root(child, key, m, policy).1;
            let later = lemma_roots(source, rest, after, policy, name);
            if name == key {
                let made = if tree::child_of(m.space.tree, key) is Ok {
                    m.space
                } else {
                    crate::api::bucket::create(m.space, Seq::empty(), key).1
                };
                let counted = if tree::child_of(m.space.tree, key) is Ok {
                    merge::MergeReport {
                        buckets_merged: tree::bumped(m.report.buckets_merged),
                        ..m.report
                    }
                } else {
                    merge::MergeReport {
                        buckets_created: tree::bumped(m.report.buckets_created),
                        ..m.report
                    }
                };
                Merging {
                    space: Space {
                        tree: tree::child_of(made.tree, key)->Ok_0,
                        log: made.log,
                    },
                    report: counted,
                }
            } else {
                later
            }
        }
    }
}

/// A merge of databases that succeeds reaches every depth of every root bucket
/// of the source, but for its journal: that of the destination is as it was.
pub proof fn law_database_merge_reaches_every_depth(
    source: Tree,
    m: Merging,
    policy: MergeConflictPolicy,
    p: Seq<Seq<u8>>,
    k: Seq<u8>,
)
    requires
        listable(source),
        p.len() > 0,
        ordinary(p.drop_first()),
        !names::about_ttl(k),
        merge::merged_roots(source, merge::keys_of(source), m, policy).0 is Ok,
    ensures
        ({
            let after = merge::merged_roots(
                source,
                merge::keys_of(source),
                m,
                policy,
            ).1.space.tree;
            &&& p[0] != names::journal_name() && tree::value_of(source, p[0]) is None ==> {
                &&& merged_right(source, m.space.tree, after, policy, p, k)
                &&& buckets_merged_right(source, m.space.tree, after, policy, p)
            }
            &&& p[0] == names::journal_name() || tree::child_of(source, p[0]) is Err
                ==> tree::bucket_at(after, p) == tree::bucket_at(m.space.tree, p)
        }),
{
    let keys = merge::keys_of(source);
    let name = p[0];
    let rest = p.drop_first();
    lemma_tree_keys(source);
    let inner = lemma_roots(source, keys, m, policy, name);
    let after = merge::merged_roots(source, keys, m, policy).1.space.tree;
    if tree::child_of(source, name) is Ok && name != names::journal_name() {
        lemma_child_listable(source, name);
        lemma_met(m.space.tree, name, rest, k);
        assert(seq![name] + rest =~= p);
        law_merge_reaches_every_depth(
            tree::child_of(source, name)->Ok_0,
            inner,
            seq![name],
            seq![name],
            policy,
            rest,
            k,
        );
    }
}

} // verus!
