//! What holds of merges.

use crate::api::merge::{self, MergeConflictPolicy, Merging};
use crate::api::names;
use crate::api::tree::{self, Item, Node, Tree};
use crate::api::ttl;
use crate::error::Error;
use vstd::prelude::*;

verus! {

/// Whether two buckets have the same under a key.
pub open spec fn alike(a: Tree, b: Tree, k: Seq<u8>) -> bool {
    a.items.contains_key(k) == b.items.contains_key(k) && (a.items.contains_key(k) ==> a.items[k]
        == b.items[k])
}

/// A deadline is kept apart from a bucket's other keys.
pub proof fn lemma_deadline_apart(t: Tree, key: Seq<u8>, d: Option<u64>, manage: bool, k: Seq<u8>)
    requires
        !names::about_ttl(k),
    ensures
        alike(t, merge::with_source_deadline(t, key, d, manage).1, k),
{
    names::law_names_differ();
}

/// Merging a value touches no other key.
pub proof fn lemma_pair_apart(
    m: Merging,
    path: Seq<Seq<u8>>,
    trail: Seq<Seq<u8>>,
    key: Seq<u8>,
    value: Seq<u8>,
    lookup: Option<Tree>,
    manage: bool,
    policy: MergeConflictPolicy,
    k: Seq<u8>,
)
    requires
        !names::about_ttl(k),
    ensures
        ({
            let (r, after) = merge::merged_pair(
                m,
                path,
                trail,
                key,
                value,
                lookup,
                manage,
                policy,
            );
            &&& k != key ==> alike(m.space.tree, after.space.tree, k)
            &&& k == key && r is Ok && policy == MergeConflictPolicy::Overwrite
                ==> tree::value_of(after.space.tree, key) == Some(value)
            &&& k == key && policy == MergeConflictPolicy::KeepExisting
                && m.space.tree.items.contains_key(key) ==> alike(
                m.space.tree,
                after.space.tree,
                key,
            )
        }),
{
    if merge::source_deadline(lookup, key) is Ok {
        let d = merge::source_deadline(lookup, key)->Ok_0;
        let (r, after) = merge::merged_value(m, path, trail, key, value, d, policy);
        lemma_deadline_apart(after.space.tree, key, d, manage, k);
    }
}

/// What a merge of some keys leaves under a key.
pub proof fn lemma_items_apart(
    source: Tree,
    keys: Seq<Seq<u8>>,
    m: Merging,
    path: Seq<Seq<u8>>,
    trail: Seq<Seq<u8>>,
    lookup: Option<Tree>,
    manage: bool,
    policy: MergeConflictPolicy,
    k: Seq<u8>,
)
    requires
        !names::about_ttl(k),
        forall|i: int, j: int| 0 <= i < j < keys.len() ==> (#[trigger] keys[i]) != (
        #[trigger] keys[j]),
        forall|i: int| 0 <= i < keys.len() ==> source.items.contains_key(#[trigger] keys[i]),
    ensures
        ({
            let (r, after) = merge::merged_items(
                source,
                keys,
                m,
                path,
                trail,
                lookup,
                manage,
                policy,
            );
            &&& !keys.contains(k) ==> alike(m.space.tree, after.space.tree, k)
            &&& keys.contains(k) && r is Ok && policy == MergeConflictPolicy::Overwrite
                && source.items[k] is Value ==> tree::value_of(after.space.tree, k) == Some(
                source.items[k]->Value_0,
            )
            &&& keys.contains(k) && policy == MergeConflictPolicy::KeepExisting
                && m.space.tree.items.contains_key(k) && m.space.tree.items[k] is Value ==> alike(
                m.space.tree,
                after.space.tree,
                k,
            )
        }),
    decreases keys.len(),
{
    if keys.len() > 0 {
        let key = keys[0];
        let rest = keys.drop_first();
        assert(source.items.contains_key(keys[0]));
        assert forall|i: int, j: int| 0 <= i < j < rest.len() implies (#[trigger] rest[i]) != (
        #[trigger] rest[j]) by {
            assert(keys[i + 1] != keys[j + 1]);
        }
        assert forall|i: int| 0 <= i < rest.len() implies source.items.contains_key(
            #[trigger] rest[i],
        ) by {
            assert(rest[i] == keys[i + 1]);
        }
        assert(keys.contains(k) <==> k == key || rest.contains(k)) by {
            if keys.contains(k) {
                let i = choose|i: int| 0 <= i < keys.len() && keys[i] == k;
                if i > 0 {
                    assert(rest[i - 1] == k);
                }
            }
            if rest.contains(k) {
                let i = choose|i: int| 0 <= i < rest.len() && rest[i] == k;
                assert(keys[i + 1] == k);
            }
            if k == key {
                assert(keys[0] == k);
            }
        }
        assert(!rest.contains(key)) by {
            if rest.contains(key) {
                let i = choose|i: int| 0 <= i < rest.len() && rest[i] == key;
                assert(keys[0] != keys[i + 1]);
            }
        }
        match source.items[key] {
            Item::Value(value) => {
                lemma_pair_apart(m, path, trail, key, value, lookup, manage, policy, k);
                let (r, after) = merge::merged_pair(
                    m,
                    path,
                    trail,
                    key,
                    value,
                    lookup,
                    manage,
                    policy,
                );
                if r is Ok {
                    lemma_items_apart(
                        source,
                        rest,
                        after,
                        path,
                        trail,
                        lookup,
                        manage,
                        policy,
                        k,
                    );
                }
            },
            Item::Bucket(child) => {
                if names::about_ttl(key) {
                    lemma_items_apart(source, rest, m, path, trail, lookup, manage, policy, k);
                } else {
                    let (r, after) = merge::placed_bucket(m, path, trail, key, policy);
                    match r {
                        Ok(false) => {
                            lemma_items_apart(
                                source,
                                rest,
                                after,
                                path,
                                trail,
                                lookup,
                                manage,
                                policy,
                                k,
                            );
                        },
                        Ok(true) => {
                            let below = tree::child_of(after.space.tree, key)->Ok_0;
                            let (inner_r, inner) = merge::merged(
                                child,
                                Merging {
                                    space: crate::api::bucket::Space {
                                        tree: below,
                                        log: after.space.log,
                                    },
                                    report: after.report,
                                },
                                path.push(key),
                                trail.push(key),
                                policy,
                            );
                            let end = Merging {
                                space: crate::api::bucket::Space {
                                    tree: tree::with_child(
                                        after.space.tree,
                                        key,
                                        inner.space.tree,
                                    ),
                                    log: inner.space.log,
                                },
                                report: inner.report,
                            };
                            if inner_r is Ok {
                                lemma_items_apart(
                                    source,
                                    rest,
                                    end,
                                    path,
                                    trail,
                                    lookup,
                                    manage,
                                    policy,
                                    k,
                                );
                            }
                        },
                        Err(_) => {},
                    }
                }
            },
        }
    }
}

/// The keys of a bucket, each once.
proof fn lemma_keys(node: Node)
    requires
        node.wf(),
    ensures
        ({
            let keys = merge::keys_of(node@);
            &&& forall|i: int, j: int|
                0 <= i < j < keys.len() ==> (#[trigger] keys[i]) != (#[trigger] keys[j])
            &&& forall|i: int|
                0 <= i < keys.len() ==> node@.items.contains_key(#[trigger] keys[i])
            &&& forall|k: Seq<u8>| #[trigger] node@.items.contains_key(k) ==> keys.contains(k)
        }),
{
    node.lemma_leaves();
    let keys = merge::keys_of(node@);
    let s = tree::items_listed(node.leaves());
    let leaves = node.leaves();
    crate::bytemap::lemma_ascending_distinct(s);
    assert forall|i: int, j: int| 0 <= i < j < keys.len() implies (#[trigger] keys[i]) != (
    #[trigger] keys[j]) by {
        assert(s[i].0 != s[j].0);
    }
    assert forall|i: int| 0 <= i < keys.len() implies node@.items.contains_key(
        #[trigger] keys[i],
    ) by {
        assert(node@.items.contains_key(leaves[i].0));
    }
    assert forall|k: Seq<u8>| #[trigger] node@.items.contains_key(k) implies keys.contains(k) by {
        crate::assoc::lemma_assoc_has(s, k);
        let i = choose|i: int| 0 <= i < s.len() && (#[trigger] s[i]).0 == k;
        assert(keys[i] == k);
    }
}

/// Destination entries that the source does not have are left as they are,
/// whatever comes of the merge.
pub proof fn law_merge_leaves_other_entries(
    source: Node,
    m: Merging,
    path: Seq<Seq<u8>>,
    trail: Seq<Seq<u8>>,
    policy: MergeConflictPolicy,
    k: Seq<u8>,
)
    requires
        source.wf(),
        !source@.items.contains_key(k),
        !names::about_ttl(k),
    ensures
        alike(
            m.space.tree,
            merge::merged(source@, m, path, trail, policy).1.space.tree,
            k,
        ),
{
    lemma_keys(source);
    let keys = merge::keys_of(source@);
    assert(!keys.contains(k)) by {
        if keys.contains(k) {
            let i = choose|i: int| 0 <= i < keys.len() && keys[i] == k;
            assert(source@.items.contains_key(keys[i]));
        }
    }
    if merge::lookup_of(source@) is Ok {
        let lookup = merge::lookup_of(source@)->Ok_0;
        lemma_items_apart(source@, keys, m, path, trail, lookup, true, policy, k);
        lemma_items_apart(source@, keys, m, path, trail, lookup, false, policy, k);
    }
}

/// Where the source overwrites, every value of it is at the destination after
/// a merge that succeeds.
pub proof fn law_overwrite_takes_source_values(
    source: Node,
    m: Merging,
    path: Seq<Seq<u8>>,
    trail: Seq<Seq<u8>>,
    k: Seq<u8>,
)
    requires
        source.wf(),
        !names::about_ttl(k),
        tree::value_of(source@, k) is Some,
        merge::merged(source@, m, path, trail, MergeConflictPolicy::Overwrite).0 is Ok,
    ensures
        tree::value_of(
            merge::merged(
                source@,
                m,
                path,
                trail,
                MergeConflictPolicy::Overwrite,
            ).1.space.tree,
            k,
        ) == tree::value_of(source@, k),
{
    lemma_keys(source);
    let keys = merge::keys_of(source@);
    let policy = MergeConflictPolicy::Overwrite;
    assert(source@.items.contains_key(k));
    let lookup = merge::lookup_of(source@)->Ok_0;
    lemma_items_apart(source@, keys, m, path, trail, lookup, true, policy, k);
    lemma_items_apart(source@, keys, m, path, trail, lookup, false, policy, k);
}

/// Where what exists is kept, no value at the destination changes.
pub proof fn law_keep_existing_keeps_values(
    source: Node,
    m: Merging,
    path: Seq<Seq<u8>>,
    trail: Seq<Seq<u8>>,
    k: Seq<u8>,
)
    requires
        source.wf(),
        !names::about_ttl(k),
        tree::value_of(m.space.tree, k) is Some,
    ensures
        tree::value_of(
            merge::merged(
                source@,
                m,
                path,
                trail,
                MergeConflictPolicy::KeepExisting,
            ).1.space.tree,
            k,
        ) == tree::value_of(m.space.tree, k),
{
    lemma_keys(source);
    let keys = merge::keys_of(source@);
    let policy = MergeConflictPolicy::KeepExisting;
    if merge::lookup_of(source@) is Ok {
        let lookup = merge::lookup_of(source@)->Ok_0;
        lemma_items_apart(source@, keys, m, path, trail, lookup, true, policy, k);
        lemma_items_apart(source@, keys, m, path, trail, lookup, false, policy, k);
    }
}

/// Whether what is under the names by which keys expire are buckets.
pub open spec fn reserved(t: Tree) -> bool {
    forall|name: Seq<u8>| #[trigger]
        t.items.contains_key(name) && names::about_ttl(name) ==> t.items[name] is Bucket
}

/// What a key's deadline becomes when it is given the source's.
proof fn lemma_deadline_given(t: Tree, key: Seq<u8>, d: Option<u64>, manage: bool, k: Seq<u8>)
    requires
        merge::with_source_deadline(t, key, d, manage).0 is Ok,
        manage || (d is None && merge::lookup_of(t) == Ok::<Option<Tree>, Error>(None)),
    ensures
        ({
            let after = merge::with_source_deadline(t, key, d, manage).1;
            &&& ttl::expires(after, key) == Ok::<Option<u64>, Error>(d)
            &&& k != key ==> ttl::expires(after, k) == ttl::expires(t, k)
            &&& !manage ==> merge::lookup_of(after) == Ok::<Option<Tree>, Error>(None)
        }),
{
    names::law_names_differ();
    if let Some(deadline) = d {
        ttl::law_listed_key_parts(deadline, key);
    }
}

/// What merging a value makes of deadlines.
proof fn lemma_pair_deadline(
    m: Merging,
    path: Seq<Seq<u8>>,
    trail: Seq<Seq<u8>>,
    key: Seq<u8>,
    value: Seq<u8>,
    lookup: Option<Tree>,
    manage: bool,
    policy: MergeConflictPolicy,
    k: Seq<u8>,
)
    requires
        !names::about_ttl(key),
        manage || (lookup is None && merge::lookup_of(m.space.tree) == Ok::<Option<Tree>, Error>(
            None,
        )),
        merge::merged_pair(m, path, trail, key, value, lookup, manage, policy).0 is Ok,
    ensures
        ({
            let t = m.space.tree;
            let after = merge::merged_pair(
                m,
                path,
                trail,
                key,
                value,
                lookup,
                manage,
                policy,
            ).1.space.tree;
            &&& k != key ==> ttl::expires(after, k) == ttl::expires(t, k)
            &&& policy == MergeConflictPolicy::Overwrite || !t.items.contains_key(key)
                ==> ttl::expires(after, key) == merge::source_deadline(lookup, key)
            &&& policy == MergeConflictPolicy::KeepExisting && t.items.contains_key(key)
                ==> ttl::expires(after, key) == ttl::expires(t, key)
            &&& !manage ==> merge::lookup_of(after) == Ok::<Option<Tree>, Error>(None)
        }),
{
    names::law_names_differ();
    let d = merge::source_deadline(lookup, key)->Ok_0;
    let (follows, after) = merge::merged_value(m, path, trail, key, value, d, policy);
    let t = m.space.tree;
    assert(ttl::expires(after.space.tree, k) == ttl::expires(t, k));
    assert(ttl::expires(after.space.tree, key) == ttl::expires(t, key));
    assert(merge::lookup_of(after.space.tree) == merge::lookup_of(t));
    if follows == Ok::<bool, merge::Stop>(true) {
        lemma_deadline_given(after.space.tree, key, d, manage, k);
    }
}

/// What making place for a bucket makes of deadlines.
proof fn lemma_place_deadline(
    m: Merging,
    path: Seq<Seq<u8>>,
    trail: Seq<Seq<u8>>,
    name: Seq<u8>,
    policy: MergeConflictPolicy,
    k: Seq<u8>,
)
    requires
        !names::about_ttl(name),
        merge::placed_bucket(m, path, trail, name, policy).0 is Ok,
    ensures
        ({
            let t = m.space.tree;
            let after = merge::placed_bucket(m, path, trail, name, policy).1.space.tree;
            &&& k != name ==> ttl::expires(after, k) == ttl::expires(t, k)
            &&& policy == MergeConflictPolicy::Overwrite && tree::value_of(t, name) is Some
                ==> ttl::expires(after, name) == Ok::<Option<u64>, Error>(None)
            &&& !(policy == MergeConflictPolicy::Overwrite && tree::value_of(t, name) is Some)
                ==> ttl::expires(after, name) == ttl::expires(t, name)
            &&& merge::lookup_of(t) == Ok::<Option<Tree>, Error>(None) ==> merge::lookup_of(after)
                == Ok::<Option<Tree>, Error>(None)
        }),
{
    names::law_names_differ();
}

/// What a merge of some keys makes of the deadline of one.
pub proof fn lemma_items_deadline(
    source: Tree,
    keys: Seq<Seq<u8>>,
    m: Merging,
    path: Seq<Seq<u8>>,
    trail: Seq<Seq<u8>>,
    lookup: Option<Tree>,
    manage: bool,
    policy: MergeConflictPolicy,
    k: Seq<u8>,
)
    requires
        reserved(source),
        !names::about_ttl(k),
        manage || (lookup is None && merge::lookup_of(m.space.tree) == Ok::<Option<Tree>, Error>(
            None,
        )),
        forall|i: int, j: int| 0 <= i < j < keys.len() ==> (#[trigger] keys[i]) != (
        #[trigger] keys[j]),
        forall|i: int| 0 <= i < keys.len() ==> source.items.contains_key(#[trigger] keys[i]),
        merge::merged_items(source, keys, m, path, trail, lookup, manage, policy).0 is Ok,
    ensures
        ({
            let t = m.space.tree;
            let after = merge::merged_items(
                source,
                keys,
                m,
                path,
                trail,
                lookup,
                manage,
                policy,
            ).1.space.tree;
            &&& !keys.contains(k) ==> ttl::expires(after, k) == ttl::expires(t, k)
            &&& keys.contains(k) && source.items[k] is Value && (policy
                == MergeConflictPolicy::Overwrite || !t.items.contains_key(k)) ==> ttl::expires(
                after,
                k,
            ) == merge::source_deadline(lookup, k)
            &&& keys.contains(k) && source.items[k] is Bucket && policy
                == MergeConflictPolicy::Overwrite && tree::value_of(t, k) is Some ==> ttl::expires(
                after,
                k,
            ) == Ok::<Option<u64>, Error>(None)
            &&& keys.contains(k) && policy == MergeConflictPolicy::KeepExisting
                && t.items.contains_key(k) ==> ttl::expires(after, k) == ttl::expires(t, k)
        }),
    decreases keys.len(),
{
    names::law_names_differ();
    if keys.len() > 0 {
        let key = keys[0];
        let rest = keys.drop_first();
        let t = m.space.tree;
        assert(source.items.contains_key(keys[0]));
        assert forall|i: int, j: int| 0 <= i < j < rest.len() implies (#[trigger] rest[i]) != (
        #[trigger] rest[j]) by {
            assert(keys[i + 1] != keys[j + 1]);
        }
        assert forall|i: int| 0 <= i < rest.len() implies source.items.contains_key(
            #[trigger] rest[i],
        ) by {
            assert(rest[i] == keys[i + 1]);
        }
        assert(keys.contains(k) <==> k == key || rest.contains(k)) by {
            if keys.contains(k) {
                let i = choose|i: int| 0 <= i < keys.len() && keys[i] == k;
                if i > 0 {
                    assert(rest[i - 1] == k);
                }
            }
            if rest.contains(k) {
                let i = choose|i: int| 0 <= i < rest.len() && rest[i] == k;
                assert(keys[i + 1] == k);
            }
            if k == key {
                assert(keys[0] == k);
            }
        }
        assert(!rest.contains(key)) by {
            if rest.contains(key) {
                let i = choose|i: int| 0 <= i < rest.len() && rest[i] == key;
                assert(keys[0] != keys[i + 1]);
            }
        }
        match source.items[key] {
            Item::Value(value) => {
                lemma_pair_deadline(m, path, trail, key, value, lookup, manage, policy, k);
                lemma_pair_apart(m, path, trail, key, value, lookup, manage, policy, k);
                let after = merge::merged_pair(
                    m,
                    path,
                    trail,
                    key,
                    value,
                    lookup,
                    manage,
                    policy,
                ).1;
                lemma_items_deadline(
                    source,
                    rest,
                    after,
                    path,
                    trail,
                    lookup,
                    manage,
                    policy,
                    k,
                );
            },
            Item::Bucket(child) => {
                if names::about_ttl(key) {
                    lemma_items_deadline(source, rest, m, path, trail, lookup, manage, policy, k);
                } else {
                    lemma_place_deadline(m, path, trail, key, policy, k);
                    let (r, after) = merge::placed_bucket(m, path, trail, key, policy);
                    let end = if r == Ok::<bool, merge::Stop>(true) {
                        let below = tree::child_of(after.space.tree, key)->Ok_0;
                        let inner = merge::merged(
                            child,
                            Merging {
                                space: crate::api::bucket::Space {
                                    tree: below,
                                    log: after.space.log,
                                },
                                report: after.report,
                            },
                            path.push(key),
                            trail.push(key),
                            policy,
                        ).1;
                        Merging {
                            space: crate::api::bucket::Space {
                                tree: tree::with_child(after.space.tree, key, inner.space.tree),
                                log: inner.space.log,
                            },
                            report: inner.report,
                        }
                    } else {
                        after
                    };
                    assert(ttl::expires(end.space.tree, k) == ttl::expires(after.space.tree, k));
                    assert(k != key ==> alike(t, end.space.tree, k));
                    lemma_items_deadline(
                        source,
                        rest,
                        end,
                        path,
                        trail,
                        lookup,
                        manage,
                        policy,
                        k,
                    );
                }
            },
        }
    }
}

/// Deadlines follow the winning key. Where the source wins, which it does where
/// it overwrites and where the destination has nothing, a key has the deadline
/// that it has at the source, or none; a value that gives way to a bucket leaves
/// no deadline. Where the destination's entry is kept, so is its deadline; and a
/// key that the source does not have keeps its own.
pub proof fn law_deadlines_follow_the_winning_key(
    source: Node,
    m: Merging,
    path: Seq<Seq<u8>>,
    trail: Seq<Seq<u8>>,
    policy: MergeConflictPolicy,
    k: Seq<u8>,
)
    requires
        source.wf(),
        reserved(source@),
        !names::about_ttl(k),
        merge::merged(source@, m, path, trail, policy).0 is Ok,
    ensures
        ({
            let t = m.space.tree;
            let after = merge::merged(source@, m, path, trail, policy).1.space.tree;
            &&& !source@.items.contains_key(k) ==> ttl::expires(after, k) == ttl::expires(t, k)
            &&& tree::value_of(source@, k) is Some && (policy == MergeConflictPolicy::Overwrite
                || !t.items.contains_key(k)) ==> ttl::expires(after, k) == ttl::expires(
                source@,
                k,
            )
            &&& source@.items.contains_key(k) && source@.items[k] is Bucket && policy
                == MergeConflictPolicy::Overwrite && tree::value_of(t, k) is Some ==> ttl::expires(
                after,
                k,
            ) == Ok::<Option<u64>, Error>(None)
            &&& policy == MergeConflictPolicy::KeepExisting && t.items.contains_key(k)
                ==> ttl::expires(after, k) == ttl::expires(t, k)
        }),
{
    lemma_keys(source);
    let keys = merge::keys_of(source@);
    if keys.contains(k) {
        let i = choose|i: int| 0 <= i < keys.len() && keys[i] == k;
        assert(source@.items.contains_key(keys[i]));
    }
    let lookup = merge::lookup_of(source@)->Ok_0;
    assert(merge::source_deadline(lookup, k) == ttl::expires(source@, k));
    let manage = match merge::lookup_of(m.space.tree) {
        Err(_) => true,
        Ok(own) => lookup is Some || own is Some,
    };
    lemma_items_deadline(source@, keys, m, path, trail, lookup, manage, policy, k);
}

} // verus!
