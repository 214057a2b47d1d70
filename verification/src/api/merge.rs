//! Merging one bucket into another.

use crate::api::bucket::{self, create_at, delete_at, discard_at, path_below, put_at, Bucket, Space};
use crate::api::changes::{self, ChangeTracker};
use crate::api::names::{self, is_ttl_bucket, journal_bucket, ttl_bucket};
use crate::api::tree::{self, Item, Leaf, Node, Tree};
use crate::api::ttl::{self, clear_expiration, decode_expiration, expiration, set_expiration};
use crate::bytes::{owned, same};
use crate::error::Error;
use vstd::prelude::*;

verus! {

/// Selects how a merge handles an existing destination entry.
#[derive(Clone, Copy, Debug, PartialEq, Eq, Structural)]
pub enum MergeConflictPolicy {
    /// Replaces destination values and entry types with source data.
    Overwrite,
    /// Retains the destination entry and skips the conflicting source entry.
    KeepExisting,
    /// Stops at the first conflicting path.
    Error,
}

impl Default for MergeConflictPolicy {
    fn default() -> (r: Self)
        ensures
            r == MergeConflictPolicy::Overwrite,
    {
        MergeConflictPolicy::Overwrite
    }
}

/// Configures recursive database and bucket merges.
#[derive(Clone, Copy, Debug, PartialEq, Eq, Structural)]
pub struct MergeOptions {
    conflict_policy: MergeConflictPolicy,
}

impl Default for MergeOptions {
    fn default() -> (r: Self)
        ensures
            r.spec_policy() == MergeConflictPolicy::Overwrite,
            r == MergeOptions::with(MergeConflictPolicy::Overwrite),
    {
        MergeOptions::new()
    }
}

impl MergeOptions {
    /// What a merge does with a conflict.
    pub closed spec fn spec_policy(&self) -> MergeConflictPolicy {
        self.conflict_policy
    }

    /// The options with a policy.
    pub closed spec fn with(policy: MergeConflictPolicy) -> Self {
        MergeOptions { conflict_policy: policy }
    }

    /// Creates options that overwrite.
    pub fn new() -> (r: Self)
        ensures
            r.spec_policy() == MergeConflictPolicy::Overwrite,
            r == MergeOptions::with(MergeConflictPolicy::Overwrite),
    {
        MergeOptions { conflict_policy: MergeConflictPolicy::Overwrite }
    }

    /// Sets the conflict policy.
    pub fn conflict_policy(self, policy: MergeConflictPolicy) -> (r: Self)
        ensures
            r.spec_policy() == policy,
            r == MergeOptions::with(policy),
    {
        MergeOptions { conflict_policy: policy }
    }

    /// Returns the configured conflict policy.
    pub fn policy(&self) -> (r: MergeConflictPolicy)
        ensures
            r == self.spec_policy(),
    {
        self.conflict_policy
    }
}

/// Counts changes performed by a merge.
#[derive(Clone, Copy, Debug, PartialEq, Eq, Structural)]
pub struct MergeReport {
    /// Source keys absent from the destination.
    pub keys_inserted: u64,
    /// Destination records changed by source values or TTL metadata.
    pub keys_updated: u64,
    /// Matching keys whose values were already identical.
    pub keys_unchanged: u64,
    /// Conflicting entries retained by `KeepExisting`.
    pub entries_skipped: u64,
    /// Root or nested buckets created from the source.
    pub buckets_created: u64,
    /// Existing destination buckets recursively combined with source buckets.
    pub buckets_merged: u64,
    /// Key/value versus bucket conflicts replaced by `Overwrite`.
    pub type_conflicts_resolved: u64,
}

/// A report of nothing.
pub open spec fn no_report() -> MergeReport {
    MergeReport {
        keys_inserted: 0,
        keys_updated: 0,
        keys_unchanged: 0,
        entries_skipped: 0,
        buckets_created: 0,
        buckets_merged: 0,
        type_conflicts_resolved: 0,
    }
}

impl Default for MergeReport {
    fn default() -> (r: Self)
        ensures
            r == no_report(),
    {
        MergeReport::new()
    }
}

impl MergeReport {
    /// A report of nothing.
    pub fn new() -> (r: Self)
        ensures
            r == no_report(),
    {
        MergeReport {
            keys_inserted: 0,
            keys_updated: 0,
            keys_unchanged: 0,
            entries_skipped: 0,
            buckets_created: 0,
            buckets_merged: 0,
            type_conflicts_resolved: 0,
        }
    }
}

fn bump(n: u64) -> (r: u64)
    ensures
        r == tree::bumped(n),
{
    if n == u64::MAX {
        n
    } else {
        n + 1
    }
}

/// Why a merge stopped.
pub enum Stop {
    /// Both sides have an entry at the path.
    Conflict(Seq<Seq<u8>>),
    Other(Error),
}

/// Whether an error tells why a merge stopped.
pub open spec fn tells(e: Error, stop: Stop) -> bool {
    match stop {
        Stop::Conflict(path) => e matches Error::MergeConflict { path: p } && changes::path_view(p@)
            == path,
        Stop::Other(f) => e == f,
    }
}

/// A destination, with what is reported of the merge so far.
pub struct Merging {
    pub space: Space,
    pub report: MergeReport,
}

/// Giving a key the source's deadline, or none where deadlines are kept.
pub open spec fn with_source_deadline(
    t: Tree,
    key: Seq<u8>,
    deadline: Option<u64>,
    manage: bool,
) -> (Result<(), Error>, Tree) {
    match deadline {
        Some(d) => ttl::with_expiration(t, key, d),
        None => if manage {
            match ttl::without_expiration(t, key) {
                (Ok(_), after) => (Ok(()), after),
                (Err(e), after) => (Err(e), after),
            }
        } else {
            (Ok(()), t)
        },
    }
}

/// The deadline that the source gives a key.
pub open spec fn source_deadline(lookup: Option<Tree>, key: Seq<u8>) -> Result<
    Option<u64>,
    Error,
> {
    match lookup {
        None => Ok(None),
        Some(lookup) => match tree::value_of(lookup, key) {
            None => Ok(None),
            Some(value) => match ttl::deadline_of(value) {
                Ok(d) => Ok(Some(d)),
                Err(e) => Err(e),
            },
        },
    }
}

/// What becomes of a source value at the destination, before its deadline: the
/// destination after, and whether the deadline follows.
pub open spec fn merged_value(
    m: Merging,
    path: Seq<Seq<u8>>,
    trail: Seq<Seq<u8>>,
    key: Seq<u8>,
    value: Seq<u8>,
    deadline: Option<u64>,
    policy: MergeConflictPolicy,
) -> (Result<bool, Stop>, Merging) {
    let t = m.space.tree;
    let stored = bucket::put(m.space, path, key, value);
    let skipped = Merging {
        report: MergeReport {
            entries_skipped: tree::bumped(m.report.entries_skipped),
            ..m.report
        },
        ..m
    };
    if !t.items.contains_key(key) {
        (
            Ok(true),
            Merging {
                space: stored.1,
                report: MergeReport {
                    keys_inserted: tree::bumped(m.report.keys_inserted),
                    ..m.report
                },
            },
        )
    } else {
        match t.items[key] {
            Item::Value(existing) => {
                let same_deadline = ttl::expires(t, key);
                if existing == value && same_deadline is Err {
                    (Err(Stop::Other(same_deadline->Err_0)), m)
                } else if existing == value && same_deadline->Ok_0 == deadline {
                    (
                        Ok(false),
                        Merging {
                            report: MergeReport {
                                keys_unchanged: tree::bumped(m.report.keys_unchanged),
                                ..m.report
                            },
                            ..m
                        },
                    )
                } else {
                    match policy {
                        MergeConflictPolicy::Overwrite => (
                            Ok(true),
                            Merging {
                                space: if existing == value {
                                    m.space
                                } else {
                                    stored.1
                                },
                                report: MergeReport {
                                    keys_updated: tree::bumped(m.report.keys_updated),
                                    ..m.report
                                },
                            },
                        ),
                        MergeConflictPolicy::KeepExisting => (Ok(false), skipped),
                        MergeConflictPolicy::Error => (
                            Err(Stop::Conflict(trail.push(key))),
                            m,
                        ),
                    }
                }
            },
            Item::Bucket(_) => match policy {
                MergeConflictPolicy::Overwrite => (
                    Ok(true),
                    Merging {
                        space: bucket::put(
                            bucket::discard(m.space, path, key).1,
                            path,
                            key,
                            value,
                        ).1,
                        report: MergeReport {
                            keys_inserted: tree::bumped(m.report.keys_inserted),
                            type_conflicts_resolved: tree::bumped(
                                m.report.type_conflicts_resolved,
                            ),
                            ..m.report
                        },
                    },
                ),
                MergeConflictPolicy::KeepExisting => (Ok(false), skipped),
                MergeConflictPolicy::Error => (Err(Stop::Conflict(trail.push(key))), m),
            },
        }
    }
}

/// Merging a source value, with its deadline.
pub open spec fn merged_pair(
    m: Merging,
    path: Seq<Seq<u8>>,
    trail: Seq<Seq<u8>>,
    key: Seq<u8>,
    value: Seq<u8>,
    lookup: Option<Tree>,
    manage: bool,
    policy: MergeConflictPolicy,
) -> (Result<(), Stop>, Merging) {
    match source_deadline(lookup, key) {
        Err(e) => (Err(Stop::Other(e)), m),
        Ok(deadline) => match merged_value(m, path, trail, key, value, deadline, policy) {
            (Err(stop), after) => (Err(stop), after),
            (Ok(false), after) => (Ok(()), after),
            (Ok(true), after) => {
                let (r, t) = with_source_deadline(after.space.tree, key, deadline, manage);
                let end = Merging { space: Space { tree: t, ..after.space }, ..after };
                match r {
                    Ok(_) => (Ok(()), end),
                    Err(e) => (Err(Stop::Other(e)), end),
                }
            },
        },
    }
}

/// Making place for a source bucket: whether its entries are to be merged. A
/// value that gives way to a bucket takes its deadline with it.
pub open spec fn placed_bucket(
    m: Merging,
    path: Seq<Seq<u8>>,
    trail: Seq<Seq<u8>>,
    name: Seq<u8>,
    policy: MergeConflictPolicy,
) -> (Result<bool, Stop>, Merging) {
    let t = m.space.tree;
    let created = MergeReport {
        buckets_created: tree::bumped(m.report.buckets_created),
        ..m.report
    };
    if !t.items.contains_key(name) {
        (Ok(true), Merging { space: bucket::create(m.space, path, name).1, report: created })
    } else {
        match t.items[name] {
            Item::Bucket(_) => (
                Ok(true),
                Merging {
                    report: MergeReport {
                        buckets_merged: tree::bumped(m.report.buckets_merged),
                        ..m.report
                    },
                    ..m
                },
            ),
            Item::Value(_) => match policy {
                MergeConflictPolicy::Overwrite => {
                    let gone = bucket::delete(m.space, path, name).1;
                    match ttl::without_expiration(gone.tree, name) {
                        (Err(e), t) => (
                            Err(Stop::Other(e)),
                            Merging { space: Space { tree: t, ..gone }, ..m },
                        ),
                        (Ok(_), t) => (
                            Ok(true),
                            Merging {
                                space: bucket::create(Space { tree: t, ..gone }, path, name).1,
                                report: MergeReport {
                                    type_conflicts_resolved: tree::bumped(
                                        m.report.type_conflicts_resolved,
                                    ),
                                    ..created
                                },
                            },
                        ),
                    }
                },
                MergeConflictPolicy::KeepExisting => (
                    Ok(false),
                    Merging {
                        report: MergeReport {
                            entries_skipped: tree::bumped(m.report.entries_skipped),
                            ..m.report
                        },
                        ..m
                    },
                ),
                MergeConflictPolicy::Error => (Err(Stop::Conflict(trail.push(name))), m),
            },
        }
    }
}

/// The keys of a bucket in order.
pub open spec fn keys_of(t: Tree) -> Seq<Seq<u8>> {
    tree::listing(t).map_values(|e: (Seq<u8>, Item)| e.0)
}

/// Whether a bucket has deadlines under its keys.
pub open spec fn lookup_of(t: Tree) -> Result<Option<Tree>, Error> {
    match tree::child_of(t, names::ttl_name()) {
        Ok(lookup) => Ok(Some(lookup)),
        Err(e) => if e == Error::BucketMissing {
            Ok(None)
        } else {
            Err(e)
        },
    }
}

/// Merging a source bucket into a destination: every entry in key order, and
/// then the larger counter.
pub open spec fn merged(
    source: Tree,
    m: Merging,
    path: Seq<Seq<u8>>,
    trail: Seq<Seq<u8>>,
    policy: MergeConflictPolicy,
) -> (Result<(), Stop>, Merging)
    decreases source, 1nat, 0nat,
{
    match lookup_of(source) {
        Err(e) => (Err(Stop::Other(e)), m),
        Ok(lookup) => match lookup_of(m.space.tree) {
            Err(e) => if lookup is Some {
                merged_items(source, keys_of(source), m, path, trail, lookup, true, policy)
            } else {
                (Err(Stop::Other(e)), m)
            },
            Ok(own) => merged_items(
                source,
                keys_of(source),
                m,
                path,
                trail,
                lookup,
                lookup is Some || own is Some,
                policy,
            ),
        },
    }
}

/// Merging the entries of a source bucket under `keys`.
pub open spec fn merged_items(
    source: Tree,
    keys: Seq<Seq<u8>>,
    m: Merging,
    path: Seq<Seq<u8>>,
    trail: Seq<Seq<u8>>,
    lookup: Option<Tree>,
    manage: bool,
    policy: MergeConflictPolicy,
) -> (Result<(), Stop>, Merging)
    decreases source, 0nat, keys.len(),
{
    if keys.len() == 0 {
        let n = if m.space.tree.next_int < source.next_int {
            source.next_int
        } else {
            m.space.tree.next_int
        };
        (
            Ok(()),
            Merging {
                space: Space { tree: Tree { next_int: n, ..m.space.tree }, ..m.space },
                ..m
            },
        )
    } else {
        let key = keys[0];
        if source.items.contains_key(key) {
            let (r, after) = match source.items[key] {
                Item::Value(value) => merged_pair(
                    m,
                    path,
                    trail,
                    key,
                    value,
                    lookup,
                    manage,
                    policy,
                ),
                Item::Bucket(child) => if names::about_ttl(key) {
                    (Ok(()), m)
                } else {
                    match placed_bucket(m, path, trail, key, policy) {
                        (Err(stop), after) => (Err(stop), after),
                        (Ok(false), after) => (Ok(()), after),
                        (Ok(true), after) => {
                            let below = tree::child_of(after.space.tree, key)->Ok_0;
                            let (r, inner) = merged(
                                child,
                                Merging {
                                    space: Space { tree: below, log: after.space.log },
                                    report: after.report,
                                },
                                path.push(key),
                                trail.push(key),
                                policy,
                            );
                            (
                                r,
                                Merging {
                                    space: Space {
                                        tree: tree::with_child(
                                            after.space.tree,
                                            key,
                                            inner.space.tree,
                                        ),
                                        log: inner.space.log,
                                    },
                                    report: inner.report,
                                },
                            )
                        },
                    }
                },
            };
            match r {
                Err(stop) => (Err(stop), after),
                Ok(_) => merged_items(
                    source,
                    keys.drop_first(),
                    after,
                    path,
                    trail,
                    lookup,
                    manage,
                    policy,
                ),
            }
        } else {
            merged_items(source, keys.drop_first(), m, path, trail, lookup, manage, policy)
        }
    }
}

/// A destination by what is in it.
pub open spec fn merging(node: Node, log: ChangeTracker, report: MergeReport) -> Merging {
    Merging { space: bucket::space(node, log), report }
}

/// Whether a merge came out as wanted.
pub open spec fn came_out(r: Result<(), Error>, want: Result<(), Stop>) -> bool {
    match (r, want) {
        (Ok(_), Ok(_)) => true,
        (Err(e), Err(stop)) => tells(e, stop),
        _ => false,
    }
}

fn merge_conflict(trail: &Vec<Vec<u8>>, key: &[u8]) -> (r: Error)
    ensures
        tells(r, Stop::Conflict(changes::path_view(trail@).push(key@))),
{
    Error::MergeConflict { path: path_below(trail, key) }
}

fn merge_value(
    node: &mut Node,
    log: &mut ChangeTracker,
    path: &Vec<Vec<u8>>,
    trail: &Vec<Vec<u8>>,
    key: &[u8],
    value: &Vec<u8>,
    deadline: Option<u64>,
    policy: MergeConflictPolicy,
    report: &mut MergeReport,
) -> (r: Result<bool, Error>)
    requires
        old(node).wf(),
        old(log).wf(),
    ensures
        final(node).wf(),
        final(log).wf(),
        ({
            let (want, after) = merged_value(
                merging(*old(node), *old(log), *old(report)),
                changes::path_view(path@),
                changes::path_view(trail@),
                key@,
                value@,
                deadline,
                policy,
            );
            &&& merging(*final(node), *final(log), *final(report)) == after
            &&& match (r, want) {
                (Ok(a), Ok(b)) => a == b,
                (Err(e), Err(stop)) => tells(e, stop),
                _ => false,
            }
        }),
{
    let found: Option<Option<bool>> = match node.get(key) {
        None => None,
        Some(leaf) => {
            proof {
                leaf.lemma_item();
            }
            match leaf {
                Leaf::Kv(existing) => Some(Some(same(existing, value))),
                Leaf::Bucket(_) => Some(None),
            }
        },
    };
    match found {
        None => {
            let _before: Result<Option<Vec<u8>>, Error> = put_at(node, log, path, key, owned(value));
            report.keys_inserted = bump(report.keys_inserted);
            Ok(true)
        },
        Some(Some(equal)) => {
            if equal {
                match expiration(node, key) {
                    Err(e) => return Err(e),
                    Ok(own) => {
                        if own == deadline {
                            report.keys_unchanged = bump(report.keys_unchanged);
                            return Ok(false);
                        }
                    },
                }
            }
            match policy {
                MergeConflictPolicy::Overwrite => {
                    if !equal {
                        let _before: Result<Option<Vec<u8>>, Error> = put_at(
                            node,
                            log,
                            path,
                            key,
                            owned(value),
                        );
                    }
                    report.keys_updated = bump(report.keys_updated);
                    Ok(true)
                },
                MergeConflictPolicy::KeepExisting => {
                    report.entries_skipped = bump(report.entries_skipped);
                    Ok(false)
                },
                MergeConflictPolicy::Error => Err(merge_conflict(trail, key)),
            }
        },
        Some(None) => match policy {
            MergeConflictPolicy::Overwrite => {
                let _gone: Result<(), Error> = discard_at(node, log, path, key);
                let _before: Result<Option<Vec<u8>>, Error> = put_at(
                    node,
                    log,
                    path,
                    key,
                    owned(value),
                );
                report.keys_inserted = bump(report.keys_inserted);
                report.type_conflicts_resolved = bump(report.type_conflicts_resolved);
                Ok(true)
            },
            MergeConflictPolicy::KeepExisting => {
                report.entries_skipped = bump(report.entries_skipped);
                Ok(false)
            },
            MergeConflictPolicy::Error => Err(merge_conflict(trail, key)),
        },
    }
}

/// What an optional bucket holds.
pub open spec fn seen_tree(node: Option<&Node>) -> Option<Tree> {
    match node {
        Some(node) => Some(node@),
        None => None,
    }
}

/// Merges a value of the source, with its deadline.
#[verifier::rlimit(30)]
#[verifier::spinoff_prover]
pub fn merge_key_value(
    node: &mut Node,
    log: &mut ChangeTracker,
    path: &Vec<Vec<u8>>,
    trail: &Vec<Vec<u8>>,
    key: &[u8],
    value: &Vec<u8>,
    lookup: Option<&Node>,
    manage: bool,
    policy: MergeConflictPolicy,
    report: &mut MergeReport,
) -> (r: Result<(), Error>)
    requires
        old(node).wf(),
        old(log).wf(),
        lookup matches Some(l) ==> l.wf(),
    ensures
        final(node).wf(),
        final(log).wf(),
        ({
            let (want, after) = merged_pair(
                merging(*old(node), *old(log), *old(report)),
                changes::path_view(path@),
                changes::path_view(trail@),
                key@,
                value@,
                seen_tree(lookup),
                manage,
                policy,
            );
            merging(*final(node), *final(log), *final(report)) == after && came_out(r, want)
        }),
{
    let deadline: Option<u64> = match lookup {
        None => None,
        Some(lookup) => match lookup.get_kv(key) {
            None => None,
            Some(stored) => match decode_expiration(stored) {
                Ok(d) => Some(d),
                Err(e) => return Err(e),
            },
        },
    };
    let follows: bool = match merge_value(
        node,
        log,
        path,
        trail,
        key,
        value,
        deadline,
        policy,
        report,
    ) {
        Ok(follows) => follows,
        Err(e) => return Err(e),
    };
    if !follows {
        return Ok(());
    }
    match deadline {
        Some(d) => set_expiration(node, key, d),
        None => if manage {
            match clear_expiration(node, key) {
                Ok(_) => Ok(()),
                Err(e) => Err(e),
            }
        } else {
            Ok(())
        },
    }
}

fn place_bucket(
    node: &mut Node,
    log: &mut ChangeTracker,
    path: &Vec<Vec<u8>>,
    trail: &Vec<Vec<u8>>,
    name: &[u8],
    policy: MergeConflictPolicy,
    report: &mut MergeReport,
) -> (r: Result<bool, Error>)
    requires
        old(node).wf(),
        old(log).wf(),
    ensures
        final(node).wf(),
        final(log).wf(),
        ({
            let (want, after) = placed_bucket(
                merging(*old(node), *old(log), *old(report)),
                changes::path_view(path@),
                changes::path_view(trail@),
                name@,
                policy,
            );
            &&& merging(*final(node), *final(log), *final(report)) == after
            &&& match (r, want) {
                (Ok(a), Ok(b)) => a == b && (a ==> tree::child_of(after.space.tree, name@) is Ok),
                (Err(e), Err(stop)) => tells(e, stop),
                _ => false,
            }
        }),
{
    let found: Option<bool> = match node.get(name) {
        None => None,
        Some(leaf) => {
            proof {
                leaf.lemma_item();
            }
            match leaf {
                Leaf::Kv(_) => Some(false),
                Leaf::Bucket(_) => Some(true),
            }
        },
    };
    match found {
        None => {
            report.buckets_created = bump(report.buckets_created);
            let _made: Result<(), Error> = create_at(node, log, path, name);
            Ok(true)
        },
        Some(true) => {
            report.buckets_merged = bump(report.buckets_merged);
            Ok(true)
        },
        Some(false) => match policy {
            MergeConflictPolicy::Overwrite => {
                let _gone: Result<Vec<u8>, Error> = delete_at(node, log, path, name);
                match clear_expiration(node, name) {
                    Ok(_) => {},
                    Err(e) => return Err(e),
                }
                report.buckets_created = bump(report.buckets_created);
                report.type_conflicts_resolved = bump(report.type_conflicts_resolved);
                let _made: Result<(), Error> = create_at(node, log, path, name);
                Ok(true)
            },
            MergeConflictPolicy::KeepExisting => {
                report.entries_skipped = bump(report.entries_skipped);
                Ok(false)
            },
            MergeConflictPolicy::Error => Err(merge_conflict(trail, name)),
        },
    }
}

/// Merges a source bucket into the bucket at `path`; conflicts are told by
/// their place below `trail`.
pub fn merge_bucket(
    node: &mut Node,
    log: &mut ChangeTracker,
    path: &Vec<Vec<u8>>,
    trail: &Vec<Vec<u8>>,
    source: &Node,
    policy: MergeConflictPolicy,
    report: &mut MergeReport,
) -> (r: Result<(), Error>)
    requires
        old(node).wf(),
        old(log).wf(),
        source.wf(),
    ensures
        final(node).wf(),
        final(log).wf(),
        ({
            let (want, after) = merged(
                source@,
                merging(*old(node), *old(log), *old(report)),
                changes::path_view(path@),
                changes::path_view(trail@),
                policy,
            );
            merging(*final(node), *final(log), *final(report)) == after && came_out(r, want)
        }),
    decreases source@,
{
    let name: Vec<u8> = ttl_bucket();
    let lookup: Option<&Node> = match source.child(&name) {
        Ok(lookup) => Some(lookup),
        Err(Error::BucketMissing) => None,
        Err(e) => return Err(e),
    };
    let manage: bool = match lookup {
        Some(_) => true,
        None => match node.child(&name) {
            Ok(_) => true,
            Err(Error::BucketMissing) => false,
            Err(e) => return Err(e),
        },
    };
    let ghost at = changes::path_view(path@);
    let ghost along = changes::path_view(trail@);
    let ghost keys = keys_of(source@);
    let ghost whole = merged(
        source@,
        merging(*node, *log, *report),
        changes::path_view(path@),
        changes::path_view(trail@),
        policy,
    );
    let mut i: usize = 0;
    proof {
        source.lemma_leaves();
        assert(keys.len() == source.leaves().len());
        assert(keys.skip(0) =~= keys);
    }
    while i < source.len()
        invariant
            node.wf(),
            log.wf(),
            source.wf(),
            lookup matches Some(l) ==> l.wf(),
            at == changes::path_view(path@),
            along == changes::path_view(trail@),
            keys == keys_of(source@),
            keys.len() == source.leaves().len(),
            i <= keys.len(),
            whole == merged(
                source@,
                merging(*old(node), *old(log), *old(report)),
                changes::path_view(path@),
                changes::path_view(trail@),
                policy,
            ),
            whole == merged_items(
                source@,
                keys.skip(i as int),
                merging(*node, *log, *report),
                at,
                along,
                seen_tree(lookup),
                manage,
                policy,
            ),
        decreases keys.len() - i,
    {
        let key: &Vec<u8> = source.key_at(i);
        let leaf: &Leaf = source.leaf_at(i);
        proof {
            source.lemma_leaves();
            leaf.lemma_item();
            assert(tree::listing(source@)[i as int] == (
                source.leaves()[i as int].0,
                source.leaves()[i as int].1.item(),
            ));
            assert(keys.skip(i as int)[0] == key@);
            assert(keys.skip(i as int).drop_first() =~= keys.skip(i + 1));
            assert(source@.items.contains_key(key@));
        }
        match leaf {
            Leaf::Kv(value) => {
                match merge_key_value(
                    node,
                    log,
                    path,
                    trail,
                    key,
                    value,
                    lookup,
                    manage,
                    policy,
                    report,
                ) {
                    Ok(_) => {},
                    Err(e) => return Err(e),
                }
            },
            Leaf::Bucket(child) => {
                if !is_ttl_bucket(key) {
                    let placed: bool = match place_bucket(
                        node,
                        log,
                        path,
                        trail,
                        key,
                        policy,
                        report,
                    ) {
                        Ok(placed) => placed,
                        Err(e) => return Err(e),
                    };
                    if placed {
                        let below: Vec<Vec<u8>> = path_below(path, key);
                        let further: Vec<Vec<u8>> = path_below(trail, key);
                        proof {
                            assert(child@ == source@.items[key@]->Bucket_0);
                            assert(decreases_to!(source@ => source@.items[key@]->Bucket_0));
                        }
                        let r: Result<(), Error> = match node.child_mut(key) {
                            Err(e) => return Err(e),
                            Ok(place) => merge_bucket(
                                place,
                                log,
                                &below,
                                &further,
                                &**child,
                                policy,
                                report,
                            ),
                        };
                        match r {
                            Ok(_) => {},
                            Err(e) => return Err(e),
                        }
                    }
                }
            },
        }
        i = i + 1;
    }
    assert(keys.skip(i as int).len() == 0);
    let n: u64 = source.next_int();
    if node.next_int() < n {
        node.set_next_int(n);
    }
    Ok(())
}

/// Merging one root bucket of a source.
pub open spec fn merged_root(child: Tree, key: Seq<u8>, m: Merging, policy: MergeConflictPolicy) -> (
    Result<(), Stop>,
    Merging,
) {
    match tree::child_of(m.space.tree, key) {
        Ok(_) => merged_below(
            child,
            key,
            Merging {
                report: MergeReport {
                    buckets_merged: tree::bumped(m.report.buckets_merged),
                    ..m.report
                },
                ..m
            },
            policy,
        ),
        Err(e) => if e == Error::BucketMissing {
            merged_below(
                child,
                key,
                Merging {
                    space: bucket::create(m.space, Seq::empty(), key).1,
                    report: MergeReport {
                        buckets_created: tree::bumped(m.report.buckets_created),
                        ..m.report
                    },
                },
                policy,
            )
        } else {
            (Err(Stop::Other(e)), m)
        },
    }
}

/// Merging a bucket into the root bucket under a name.
pub open spec fn merged_below(child: Tree, key: Seq<u8>, m: Merging, policy: MergeConflictPolicy) -> (
    Result<(), Stop>,
    Merging,
) {
    let below = tree::child_of(m.space.tree, key)->Ok_0;
    let (r, inner) = merged(
        child,
        Merging { space: Space { tree: below, log: m.space.log }, report: m.report },
        seq![key],
        seq![key],
        policy,
    );
    (
        r,
        Merging {
            space: Space {
                tree: tree::with_child(m.space.tree, key, inner.space.tree),
                log: inner.space.log,
            },
            report: inner.report,
        },
    )
}

/// Merging the root buckets of a source under `keys`; the journal is not among
/// what is merged.
pub open spec fn merged_roots(
    source: Tree,
    keys: Seq<Seq<u8>>,
    m: Merging,
    policy: MergeConflictPolicy,
) -> (Result<(), Stop>, Merging)
    decreases keys.len(),
{
    if keys.len() == 0 {
        (Ok(()), m)
    } else {
        let key = keys[0];
        match tree::child_of(source, key) {
            Err(_) => merged_roots(source, keys.drop_first(), m, policy),
            Ok(child) => if key == names::journal_name() {
                merged_roots(source, keys.drop_first(), m, policy)
            } else {
                match merged_root(child, key, m, policy) {
                    (Err(stop), after) => (Err(stop), after),
                    (Ok(_), after) => merged_roots(source, keys.drop_first(), after, policy),
                }
            },
        }
    }
}

/// Recursively merges every source root bucket into a destination root.
///
/// Destination entries not present in the source remain unchanged. TTL follows
/// the winning key, and durable journal history is not imported.
pub fn merge_transactions(
    root: &mut Node,
    log: &mut ChangeTracker,
    source: &Node,
    options: MergeOptions,
) -> (r: Result<MergeReport, Error>)
    requires
        old(root).wf(),
        old(log).wf(),
        source.wf(),
    ensures
        final(root).wf(),
        final(log).wf(),
        ({
            let (want, after) = merged_roots(
                source@,
                keys_of(source@),
                merging(*old(root), *old(log), no_report()),
                options.spec_policy(),
            );
            &&& bucket::space(*final(root), *final(log)) == after.space
            &&& match (r, want) {
                (Ok(report), Ok(_)) => report == after.report,
                (Err(e), Err(stop)) => tells(e, stop),
                _ => false,
            }
        }),
{
    let mut report: MergeReport = MergeReport::new();
    let policy: MergeConflictPolicy = options.policy();
    let path: Vec<Vec<u8>> = Vec::new();
    let journal: Vec<u8> = journal_bucket();
    let ghost keys = keys_of(source@);
    let ghost whole = merged_roots(source@, keys, merging(*root, *log, report), policy);
    let mut i: usize = 0;
    proof {
        source.lemma_leaves();
        assert(keys.len() == source.leaves().len());
        assert(keys.skip(0) =~= keys);
        assert(changes::path_view(path@) =~= Seq::<Seq<u8>>::empty());
    }
    while i < source.len()
        invariant
            root.wf(),
            log.wf(),
            source.wf(),
            policy == options.spec_policy(),
            changes::path_view(path@) == Seq::<Seq<u8>>::empty(),
            journal@ == names::journal_name(),
            keys == keys_of(source@),
            keys.len() == source.leaves().len(),
            i <= keys.len(),
            whole == merged_roots(
                source@,
                keys_of(source@),
                merging(*old(root), *old(log), no_report()),
                options.spec_policy(),
            ),
            whole == merged_roots(
                source@,
                keys.skip(i as int),
                merging(*root, *log, report),
                policy,
            ),
        decreases keys.len() - i,
    {
        let key: &Vec<u8> = source.key_at(i);
        let leaf: &Leaf = source.leaf_at(i);
        proof {
            source.lemma_leaves();
            leaf.lemma_item();
            assert(tree::listing(source@)[i as int] == (
                source.leaves()[i as int].0,
                source.leaves()[i as int].1.item(),
            ));
            assert(keys.skip(i as int)[0] == key@);
            assert(keys.skip(i as int).drop_first() =~= keys.skip(i + 1));
            assert(source@.items.contains_key(key@));
        }
        match leaf {
            Leaf::Kv(_) => {},
            Leaf::Bucket(child) => {
                if !same(key, &journal) {
                    let found: Result<(), Error> = match root.child(key) {
                        Ok(_) => Ok(()),
                        Err(e) => Err(e),
                    };
                    match found {
                        Ok(_) => {
                            report.buckets_merged = bump(report.buckets_merged);
                        },
                        Err(Error::BucketMissing) => {
                            report.buckets_created = bump(report.buckets_created);
                            let _made: Result<(), Error> = create_at(root, log, &path, key);
                        },
                        Err(e) => return Err(e),
                    }
                    let below: Vec<Vec<u8>> = path_below(&path, key);
                    proof {
                        assert(changes::path_view(below@) =~= seq![key@]);
                    }
                    let r: Result<(), Error> = match root.child_mut(key) {
                        Err(e) => return Err(e),
                        Ok(place) => merge_bucket(
                            place,
                            log,
                            &below,
                            &below,
                            &**child,
                            policy,
                            &mut report,
                        ),
                    };
                    match r {
                        Ok(_) => {},
                        Err(e) => return Err(e),
                    }
                }
            },
        }
        i = i + 1;
    }
    assert(keys.skip(i as int).len() == 0);
    Ok(report)
}

impl<'a> Bucket<'a> {
    /// Recursively merges a source bucket into this writable bucket.
    ///
    /// Changes belong to the destination bucket's existing transaction and are
    /// durable only after its caller commits that transaction.
    pub fn merge_from(&mut self, source: &Node, options: MergeOptions) -> (r: Result<
        MergeReport,
        Error,
    >)
        requires
            old(self).wf(),
            source.wf(),
        ensures
            final(self).wf(),
            final(self).path == old(self).path,
            final(self).writable == old(self).writable,
            *final(final(self).node) == *final(old(self).node),
            *final(final(self).log) == *final(old(self).log),
            if !old(self).writable {
                r == Err::<MergeReport, Error>(Error::ReadOnlyTx) && final(self).space() == old(
                    self,
                ).space()
            } else {
                let (want, after) = merged(
                    source@,
                    Merging { space: old(self).space(), report: no_report() },
                    old(self).at(),
                    Seq::empty(),
                    options.spec_policy(),
                );
                &&& final(self).space() == after.space
                &&& match (r, want) {
                    (Ok(report), Ok(_)) => report == after.report,
                    (Err(e), Err(stop)) => tells(e, stop),
                    _ => false,
                }
            },
    {
        if !self.writable {
            return Err(Error::ReadOnlyTx);
        }
        let mut report: MergeReport = MergeReport::new();
        let trail: Vec<Vec<u8>> = Vec::new();
        assert(changes::path_view(trail@) =~= Seq::<Seq<u8>>::empty());
        match merge_bucket(
            self.node,
            self.log,
            &self.path,
            &trail,
            source,
            options.policy(),
            &mut report,
        ) {
            Ok(_) => Ok(report),
            Err(e) => Err(e),
        }
    }
}

} // verus!
