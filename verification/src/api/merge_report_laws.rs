//! What holds of what a merge reports.

use crate::api::bucket::{self, Space};
use crate::api::merge::{self, MergeConflictPolicy, MergeReport, Merging, Stop};
use crate::api::names;
use crate::api::tree::{self, Item, Tree};
use crate::api::ttl;
use crate::error::Error;
use vstd::prelude::*;

verus! {

/// How many of the source's keys a merge has dealt with.
pub open spec fn handled(r: MergeReport) -> int {
    r.keys_inserted + r.keys_updated + r.keys_unchanged + r.entries_skipped
}

/// How many of the source's buckets a merge has dealt with.
pub open spec fn visited(r: MergeReport) -> int {
    r.buckets_created + r.buckets_merged
}

/// Whether a key has just some value with some deadline.
pub open spec fn just(t: Tree, key: Seq<u8>, value: Seq<u8>, deadline: Option<u64>) -> bool {
    tree::value_of(t, key) == Some(value) && ttl::expires(t, key) == Ok::<Option<u64>, Error>(
        deadline,
    )
}

/// One key of the source is counted once: as inserted where the destination had
/// no value, as unchanged where it had this one already, and otherwise as
/// updated or as skipped, as the policy says. A conflict stops the merge where
/// the policy says so, and then nothing has changed.
pub proof fn law_merged_key_is_counted_once(
    m: Merging,
    path: Seq<Seq<u8>>,
    trail: Seq<Seq<u8>>,
    key: Seq<u8>,
    value: Seq<u8>,
    deadline: Option<u64>,
    policy: MergeConflictPolicy,
)
    requires
        handled(m.report) < u64::MAX,
        m.report.type_conflicts_resolved < u64::MAX,
        ttl::expires(m.space.tree, key) is Ok,
    ensures
        ({
            let (r, after) = merge::merged_value(m, path, trail, key, value, deadline, policy);
            let t = m.space.tree;
            let had = tree::value_of(t, key) is Some;
            let nested = t.items.contains_key(key) && t.items[key] is Bucket;
            let clash = t.items.contains_key(key) && !just(t, key, value, deadline);
            &&& r is Err <==> clash && policy == MergeConflictPolicy::Error
            &&& r matches Err(stop) ==> after == m && stop == Stop::Conflict(trail.push(key))
            &&& r is Ok ==> {
                &&& handled(after.report) == handled(m.report) + 1
                &&& visited(after.report) == visited(m.report)
                &&& after.report.keys_unchanged > m.report.keys_unchanged <==> just(
                    t,
                    key,
                    value,
                    deadline,
                )
                &&& after.report.entries_skipped > m.report.entries_skipped <==> clash && policy
                    == MergeConflictPolicy::KeepExisting
                &&& after.report.keys_updated > m.report.keys_updated <==> clash && had && policy
                    == MergeConflictPolicy::Overwrite
                &&& after.report.keys_inserted > m.report.keys_inserted <==> !had && !(nested
                    && policy == MergeConflictPolicy::KeepExisting)
                &&& after.report.type_conflicts_resolved == m.report.type_conflicts_resolved
                    + if nested && policy == MergeConflictPolicy::Overwrite {
                    1int
                } else {
                    0
                }
                &&& r == Ok::<bool, Stop>(true) ==> tree::value_of(after.space.tree, key) == Some(
                    value,
                )
                &&& r == Ok::<bool, Stop>(false) ==> after.space == m.space && (just(
                    t,
                    key,
                    value,
                    deadline,
                ) || policy == MergeConflictPolicy::KeepExisting)
            }
        }),
{
}

/// How many values, and how many buckets, a merge comes upon in some entries of
/// a bucket and in all that is nested in them; what keys expire by does not
/// count.
pub open spec fn content(source: Tree, keys: Seq<Seq<u8>>) -> (nat, nat)
    decreases source, keys.len(),
{
    if keys.len() == 0 {
        (0, 0)
    } else {
        let (values, buckets) = content(source, keys.drop_first());
        let key = keys[0];
        if source.items.contains_key(key) {
            match source.items[key] {
                Item::Value(_) => (values + 1, buckets),
                Item::Bucket(child) => if names::about_ttl(key) {
                    (values, buckets)
                } else {
                    let (v, b) = content(child, merge::keys_of(child));
                    (values + v, buckets + b + 1)
                },
            }
        } else {
            (values, buckets)
        }
    }
}

/// Whether a report grew by as many keys and buckets, and nothing was skipped.
pub open spec fn grew(before: MergeReport, after: MergeReport, by: (nat, nat)) -> bool {
    &&& handled(after) == handled(before) + by.0
    &&& visited(after) == visited(before) + by.1
    &&& after.entries_skipped == before.entries_skipped
}

/// Whether the counters have room for so much more.
pub open spec fn roomy(r: MergeReport, by: (nat, nat)) -> bool {
    handled(r) + by.0 <= u64::MAX && visited(r) + by.1 <= u64::MAX
}

proof fn lemma_items_counted(
    source: Tree,
    keys: Seq<Seq<u8>>,
    m: Merging,
    path: Seq<Seq<u8>>,
    trail: Seq<Seq<u8>>,
    lookup: Option<Tree>,
    manage: bool,
    policy: MergeConflictPolicy,
)
    requires
        policy != MergeConflictPolicy::KeepExisting,
        roomy(m.report, content(source, keys)),
        merge::merged_items(source, keys, m, path, trail, lookup, manage, policy).0 is Ok,
    ensures
        grew(
            m.report,
            merge::merged_items(
                source,
                keys,
                m,
                path,
                trail,
                lookup,
                manage,
                policy,
            ).1.report,
            content(source, keys),
        ),
    decreases source, 0nat, keys.len(),
{
    if keys.len() > 0 {
        let key = keys[0];
        let rest = keys.drop_first();
        if source.items.contains_key(key) {
            match source.items[key] {
                Item::Value(value) => {
                    let (r, after) = merge::merged_pair(
                        m,
                        path,
                        trail,
                        key,
                        value,
                        lookup,
                        manage,
                        policy,
                    );
                    assert(grew(m.report, after.report, (1nat, 0nat)));
                    lemma_items_counted(
                        source,
                        rest,
                        after,
                        path,
                        trail,
                        lookup,
                        manage,
                        policy,
                    );
                },
                Item::Bucket(child) => if names::about_ttl(key) {
                    lemma_items_counted(source, rest, m, path, trail, lookup, manage, policy);
                } else {
                    let (r, placed) = merge::placed_bucket(m, path, trail, key, policy);
                    assert(r == Ok::<bool, Stop>(true));
                    assert(grew(m.report, placed.report, (0nat, 1nat)));
                    let below = tree::child_of(placed.space.tree, key)->Ok_0;
                    let start = Merging {
                        space: Space { tree: below, log: placed.space.log },
                        report: placed.report,
                    };
                    law_merge_counts_everything(
                        child,
                        start,
                        path.push(key),
                        trail.push(key),
                        policy,
                    );
                    let inner = merge::merged(
                        child,
                        start,
                        path.push(key),
                        trail.push(key),
                        policy,
                    ).1;
                    let after = Merging {
                        space: Space {
                            tree: tree::with_child(placed.space.tree, key, inner.space.tree),
                            log: inner.space.log,
                        },
                        report: inner.report,
                    };
                    lemma_items_counted(
                        source,
                        rest,
                        after,
                        path,
                        trail,
                        lookup,
                        manage,
                        policy,
                    );
                },
            }
        } else {
            lemma_items_counted(source, rest, m, path, trail, lookup, manage, policy);
        }
    }
}

/// A merge that skips nothing counts every value of the source, at every depth,
/// and every bucket.
pub proof fn law_merge_counts_everything(
    source: Tree,
    m: Merging,
    path: Seq<Seq<u8>>,
    trail: Seq<Seq<u8>>,
    policy: MergeConflictPolicy,
)
    requires
        policy != MergeConflictPolicy::KeepExisting,
        roomy(m.report, content(source, merge::keys_of(source))),
        merge::merged(source, m, path, trail, policy).0 is Ok,
    ensures
        grew(
            m.report,
            merge::merged(source, m, path, trail, policy).1.report,
            content(source, merge::keys_of(source)),
        ),
    decreases source, 1nat, 0nat,
{
    let keys = merge::keys_of(source);
    let lookup = merge::lookup_of(source)->Ok_0;
    let manage = lookup is Some || (merge::lookup_of(m.space.tree) matches Ok(Some(_)));
    lemma_items_counted(source, keys, m, path, trail, lookup, manage, policy);
}

/// How many values, and how many buckets, a merge comes upon in some of the
/// source's root buckets; the journal does not count.
pub open spec fn root_content(source: Tree, keys: Seq<Seq<u8>>) -> (nat, nat)
    decreases keys.len(),
{
    if keys.len() == 0 {
        (0, 0)
    } else {
        let (values, buckets) = root_content(source, keys.drop_first());
        match tree::child_of(source, keys[0]) {
            Err(_) => (values, buckets),
            Ok(child) => if keys[0] == names::journal_name() {
                (values, buckets)
            } else {
                let (v, b) = content(child, merge::keys_of(child));
                (values + v, buckets + b + 1)
            },
        }
    }
}

/// A merge of databases that skips nothing counts every value of the source's
/// root buckets, at every depth, and every bucket.
pub proof fn law_database_merge_counts_everything(
    source: Tree,
    keys: Seq<Seq<u8>>,
    m: Merging,
    policy: MergeConflictPolicy,
)
    requires
        policy != MergeConflictPolicy::KeepExisting,
        roomy(m.report, root_content(source, keys)),
        merge::merged_roots(source, keys, m, policy).0 is Ok,
    ensures
        grew(
            m.report,
            merge::merged_roots(source, keys, m, policy).1.report,
            root_content(source, keys),
        ),
    decreases keys.len(),
{
    if keys.len() > 0 {
        let key = keys[0];
        let rest = keys.drop_first();
        match tree::child_of(source, key) {
            Err(_) => law_database_merge_counts_everything(source, rest, m, policy),
            Ok(child) => if key == names::journal_name() {
                law_database_merge_counts_everything(source, rest, m, policy);
            } else {
                let placed = match tree::child_of(m.space.tree, key) {
                    Ok(_) => Merging {
                        report: MergeReport {
                            buckets_merged: tree::bumped(m.report.buckets_merged),
                            ..m.report
                        },
                        ..m
                    },
                    Err(_) => Merging {
                        space: bucket::create(m.space, Seq::empty(), key).1,
                        report: MergeReport {
                            buckets_created: tree::bumped(m.report.buckets_created),
                            ..m.report
                        },
                    },
                };
                assert(grew(m.report, placed.report, (0nat, 1nat)));
                let below = tree::child_of(placed.space.tree, key)->Ok_0;
                let start = Merging {
                    space: Space { tree: below, log: placed.space.log },
                    report: placed.report,
                };
                law_merge_counts_everything(child, start, seq![key], seq![key], policy);
                let after = merge::merged_root(child, key, m, policy).1;
                law_database_merge_counts_everything(source, rest, after, policy);
            },
        }
    }
}

/// A bucket of the source is placed and counted once: as merged where the
/// destination has a bucket of its name, which is then as it was, and as created
/// otherwise, and is then empty. A value of its name gives way, or is kept, or
/// stops the merge, as the policy says.
pub proof fn law_merged_bucket_is_counted_once(
    m: Merging,
    path: Seq<Seq<u8>>,
    trail: Seq<Seq<u8>>,
    name: Seq<u8>,
    policy: MergeConflictPolicy,
)
    requires
        handled(m.report) < u64::MAX,
        visited(m.report) < u64::MAX,
        !names::about_ttl(name),
        ttl::without_expiration(bucket::delete(m.space, path, name).1.tree, name).0 is Ok,
    ensures
        ({
            let (r, after) = merge::placed_bucket(m, path, trail, name, policy);
            let t = m.space.tree;
            let valued = tree::value_of(t, name) is Some;
            &&& r is Err <==> valued && policy == MergeConflictPolicy::Error
            &&& r matches Err(stop) ==> after == m && stop == Stop::Conflict(trail.push(name))
            &&& r == Ok::<bool, Stop>(false) <==> valued && policy
                == MergeConflictPolicy::KeepExisting
            &&& r == Ok::<bool, Stop>(false) ==> after.space == m.space && handled(after.report)
                == handled(m.report) + 1 && visited(after.report) == visited(m.report)
            &&& r == Ok::<bool, Stop>(true) ==> {
                &&& tree::child_of(after.space.tree, name) == Ok::<Tree, Error>(
                    match tree::child_of(t, name) {
                        Ok(child) => child,
                        Err(_) => tree::empty_tree(),
                    },
                )
                &&& handled(after.report) == handled(m.report)
                &&& visited(after.report) == visited(m.report) + 1
                &&& after.report.buckets_merged > m.report.buckets_merged <==> tree::child_of(
                    t,
                    name,
                ) is Ok
            }
        }),
{
    names::law_names_differ();
    if tree::value_of(m.space.tree, name) is Some {
        let gone = bucket::delete(m.space, path, name).1;
        crate::application::batch_laws::lemma_untimed_apart(gone.tree, name, name);
    }
}

} // verus!
