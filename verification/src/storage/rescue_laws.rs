//! What holds of saving buckets at every depth.

use crate::api::tree::{self, Tree};
use crate::bytes;
use crate::data::DataView;
use crate::error::{self, Error};
use crate::storage::cursor::{self, PageCursorView, Source};
use crate::storage::cursor_laws;
use crate::storage::salvage::{self, ManifestView, Saved};
use crate::storage::salvage_laws::{self, before};
use vstd::prelude::*;

verus! {

/// Whether the pages of a bucket can be read and are in order.
pub open spec fn readable(src: Source, root: u64, height: nat) -> bool {
    &&& cursor_laws::whole(src, root, height)
    &&& cursor_laws::ordered(src, root, height)
    &&& height <= src.buf.len()
    &&& cursor_laws::entries(src, root, height).len() < src.buf.len()
}

/// How many pages lie above one another in a bucket that can be read.
pub open spec fn height_of(src: Source, root: u64) -> nat {
    choose|height: nat| readable(src, root, height)
}

/// The entries of a bucket that can be read.
pub open spec fn entries_of(src: Source, root: u64) -> Seq<DataView> {
    cursor_laws::entries(src, root, height_of(src, root))
}

/// Whether a bucket and all that are nested in it, at most `level` of them in
/// one another, can be read.
pub open spec fn undamaged(src: Source, root: u64, level: nat) -> bool
    decreases level,
{
    &&& level > 0
    &&& readable(src, root, height_of(src, root))
    &&& forall|i: int|
        0 <= i < entries_of(src, root).len() && (#[trigger] entries_of(src, root)[i]) is Bucket
            ==> salvage::bucket_in(src, root, entries_of(src, root)[i].key()) is Ok && undamaged(
            src,
            salvage::bucket_in(src, root, entries_of(src, root)[i].key())->Ok_0.root_page,
            (level - 1) as nat,
        )
}

/// Whether an entry of a bucket was saved: a pair with its value, a nested
/// bucket with its counter and all that it holds. The root has no pairs.
pub open spec fn entry_rescued(
    src: Source,
    root: u64,
    top: bool,
    t: Tree,
    level: nat,
    d: DataView,
) -> bool
    decreases level, 0int,
{
    match d {
        DataView::KeyValue(key, value) => !top ==> tree::value_of(t, key) == Some(value),
        DataView::Bucket(name) => level > 0 && match (
            salvage::bucket_in(src, root, name),
            tree::child_of(t, name),
        ) {
            (Ok(found), Ok(child)) => child.next_int == found.next_int && rescued(
                src,
                found.root_page,
                false,
                child,
                (level - 1) as nat,
            ),
            _ => false,
        },
    }
}

/// Whether a bucket was saved: every entry, and nothing else.
pub open spec fn rescued(src: Source, root: u64, top: bool, t: Tree, level: nat) -> bool
    decreases level, 1int,
{
    &&& forall|i: int|
        0 <= i < entries_of(src, root).len() ==> entry_rescued(
            src,
            root,
            top,
            t,
            level,
            #[trigger] entries_of(src, root)[i],
        )
    &&& forall|k: Seq<u8>| #[trigger]
        t.items.contains_key(k) ==> has_entry(
            src,
            root,
            top,
            entries_of(src, root).len() as int,
            k,
        )
}

/// Whether one of the first entries of a bucket has a key.
pub open spec fn has_entry(src: Source, root: u64, top: bool, n: int, k: Seq<u8>) -> bool {
    exists|i: int|
        0 <= i < n && (#[trigger] entries_of(src, root)[i]).key() == k && !(top && entries_of(
            src,
            root,
        )[i] is KeyValue)
}

/// How many pairs, and how many buckets, are in the first `n` entries of a
/// bucket and in what is nested in them.
pub open spec fn tally(src: Source, root: u64, top: bool, level: nat, n: int) -> (nat, nat)
    decreases level, n,
{
    if n <= 0 || level == 0 {
        (0, 0)
    } else {
        let (pairs, buckets) = tally(src, root, top, level, n - 1);
        match entries_of(src, root)[n - 1] {
            DataView::KeyValue(_, _) => (
                pairs + if top {
                    0nat
                } else {
                    1
                },
                buckets,
            ),
            DataView::Bucket(name) => {
                let below = salvage::bucket_in(src, root, name)->Ok_0.root_page;
                let (p, b) = tally(
                    src,
                    below,
                    false,
                    (level - 1) as nat,
                    entries_of(src, below).len() as int,
                );
                (pairs + p, buckets + b + 1)
            },
        }
    }
}

/// A counter raised by some number; it stays at its largest value.
pub open spec fn raised(n: u64, by: nat) -> u64 {
    if n + by > u64::MAX {
        u64::MAX
    } else {
        (n + by) as u64
    }
}

/// A manifest after some pairs and buckets were copied, and nothing skipped.
pub open spec fn copied(m: ManifestView, counts: (nat, nat)) -> ManifestView {
    ManifestView {
        copied_records: raised(m.copied_records, counts.0),
        copied_buckets: raised(m.copied_buckets, counts.1),
        ..m
    }
}

/// Whether the first `n` entries of a bucket were saved, and nothing else.
spec fn rescued_upto(src: Source, root: u64, top: bool, t: Tree, level: nat, n: int) -> bool {
    &&& forall|i: int| 
        0 <= i < n ==> entry_rescued(src, root, top, t, level, #[trigger] entries_of(src, root)[i])
    &&& forall|k: Seq<u8>| #[trigger]
        t.items.contains_key(k) ==> has_entry(src, root, top, n, k)
}

/// One entry more.
proof fn lemma_rescued_on(
    src: Source,
    root: u64,
    top: bool,
    t: Tree,
    u: Tree,
    level: nat,
    p: int,
)
    requires
        undamaged(src, root, level),
        0 <= p < entries_of(src, root).len(),
        rescued_upto(src, root, top, t, level, p),
        forall|k: Seq<u8>|
            k != entries_of(src, root)[p].key() ==> (#[trigger] u.items.contains_key(k)
                == t.items.contains_key(k)) && (t.items.contains_key(k) ==> u.items[k]
                == t.items[k]),
        top && entries_of(src, root)[p] is KeyValue ==> u == t,
        entry_rescued(src, root, top, u, level, entries_of(src, root)[p]),
    ensures
        rescued_upto(src, root, top, u, level, p + 1),
{
    let l = entries_of(src, root);
    assert forall|i: int| 0 <= i < p + 1 implies entry_rescued(
        src,
        root,
        top,
        u,
        level,
        #[trigger] entries_of(src, root)[i],
    ) by {
        if i < p {
            assert(entry_rescued(src, root, top, t, level, entries_of(src, root)[i]));
            assert(bytes::lex_lt(l[i].key(), l[p].key()));
            bytes::lemma_lex_irreflexive(l[p].key());
            assert(u.items.contains_key(l[i].key()) == t.items.contains_key(l[i].key()));
        }
    }
    assert forall|k: Seq<u8>| #[trigger] u.items.contains_key(k) implies has_entry(
        src,
        root,
        top,
        p + 1,
        k,
    ) by {
        if t.items.contains_key(k) {
            assert(has_entry(src, root, top, p, k));
            let i = choose|i: int|
                0 <= i < p && (#[trigger] l[i]).key() == k && !(top && l[i] is KeyValue);
            assert(l[i].key() == k);
        } else {
            assert(l[p].key() == k);
        }
    }
}

/// Nothing is there yet under the next entry's key.
proof fn lemma_next_is_new(src: Source, root: u64, top: bool, t: Tree, level: nat, p: int)
    requires
        undamaged(src, root, level),
        0 <= p < entries_of(src, root).len(),
        rescued_upto(src, root, top, t, level, p),
    ensures
        !t.items.contains_key(entries_of(src, root)[p].key()),
{
    let l = entries_of(src, root);
    let k = l[p].key();
    if t.items.contains_key(k) {
        assert(has_entry(src, root, top, p, k));
        let i = choose|i: int|
            0 <= i < p && (#[trigger] l[i]).key() == k && !(top && l[i] is KeyValue);
        assert(bytes::lex_lt(l[i].key(), l[p].key()));
        bytes::lemma_lex_irreflexive(k);
    }
}

#[verifier::rlimit(40)]
#[verifier::spinoff_prover]
proof fn lemma_rescued(
    src: Source,
    root: u64,
    c: PageCursorView,
    s: Saved,
    m: ManifestView,
    path: Seq<Seq<u8>>,
    level: nat,
    steps: nat,
    p: int,
)
    requires
        undamaged(src, root, level),
        0 <= p <= entries_of(src, root).len(),
        before(src, root, height_of(src, root), c, p),
        entries_of(src, root).len() - p < steps,
        rescued_upto(src, root, path.len() == 0, s.tree, level, p),
        s.manifest == copied(m, tally(src, root, path.len() == 0, level, p)),
    ensures
        ({
            let (r, after) = salvage::saved(src, root, c, s, path, level, steps);
            let n = entries_of(src, root).len() as int;
            &&& r is Ok
            &&& rescued_upto(src, root, path.len() == 0, after.tree, level, n)
            &&& after.manifest == copied(m, tally(src, root, path.len() == 0, level, n))
        }),
    decreases level, steps,
{
    let top = path.len() == 0;
    let l = entries_of(src, root);
    let height = height_of(src, root);
    salvage_laws::lemma_step(src, root, height, c, p);
    let at = cursor::moved_on(src, root, c).1;
    let left = (steps - 1) as nat;
    if p < l.len() {
        lemma_next_is_new(src, root, top, s.tree, level, p);
        match l[p] {
            DataView::KeyValue(key, value) => {
                if top {
                    assert(entry_rescued(src, root, top, s.tree, level, entries_of(src, root)[p]));
                    lemma_rescued_on(src, root, top, s.tree, s.tree, level, p);
                    lemma_rescued(src, root, at, s, m, path, level, left, p + 1);
                } else {
                    let t = tree::put(s.tree, key, value)->Ok_0.1;
                    let next = Saved {
                        tree: t,
                        manifest: ManifestView {
                            copied_records: tree::bumped(s.manifest.copied_records),
                            ..s.manifest
                        },
                    };
                    assert(entry_rescued(src, root, top, t, level, entries_of(src, root)[p]));
                    lemma_rescued_on(src, root, top, s.tree, t, level, p);
                    lemma_rescued(src, root, at, next, m, path, level, left, p + 1);
                }
            },
            DataView::Bucket(name) => {
                assert(l[p].key() == name);
                let found = salvage::bucket_in(src, root, name)->Ok_0;
                let made = tree::create_bucket(s.tree, name)->Ok_0;
                let counted = ManifestView {
                    copied_buckets: tree::bumped(s.manifest.copied_buckets),
                    ..s.manifest
                };
                let start = Saved { tree: tree::empty_tree(), manifest: counted };
                let below = found.root_page;
                let under = (level - 1) as nat;
                let size = entries_of(src, below).len() as int;
                let inner = path.push(name);
                let (r, sub) = salvage::saved(
                    src,
                    below,
                    salvage::unplaced(),
                    start,
                    inner,
                    under,
                    src.buf.len(),
                );
                assert(undamaged(src, below, under));
                assert(tally(src, below, false, under, 0) == (0nat, 0nat));
                assert(counted == copied(counted, (0nat, 0nat)));
                assert(rescued_upto(src, below, false, start.tree, under, 0));
                lemma_rescued(
                    src,
                    below,
                    salvage::unplaced(),
                    start,
                    counted,
                    inner,
                    under,
                    src.buf.len(),
                    0,
                );
                let child = Tree { next_int: found.next_int, ..sub.tree };
                let next = Saved {
                    tree: tree::with_child(made, name, child),
                    manifest: sub.manifest,
                };
                lemma_same_items(src, below, sub.tree, child, under);
                assert(rescued(src, below, false, child, under));
                assert(tree::child_of(next.tree, name) == Ok::<Tree, Error>(child));
                assert(entry_rescued(src, root, top, next.tree, level, entries_of(src, root)[p]));
                lemma_rescued_on(src, root, top, s.tree, next.tree, level, p);
                assert(next.manifest == copied(m, tally(src, root, top, level, p + 1)));
                lemma_rescued(src, root, at, next, m, path, level, left, p + 1);
            },
        }
    }
}

/// A bucket's counter has no part in what is saved in it.
proof fn lemma_same_items(src: Source, root: u64, t: Tree, u: Tree, level: nat)
    requires
        t.items == u.items,
        rescued_upto(src, root, false, t, level, entries_of(src, root).len() as int),
    ensures
        rescued(src, root, false, u, level),
{
    assert forall|i: int| 0 <= i < entries_of(src, root).len() implies entry_rescued(
        src,
        root,
        false,
        u,
        level,
        #[trigger] entries_of(src, root)[i],
    ) by {
        assert(entry_rescued(src, root, false, t, level, entries_of(src, root)[i]));
    }
    assert forall|k: Seq<u8>| #[trigger] u.items.contains_key(k) implies has_entry(
        src,
        root,
        false,
        entries_of(src, root).len() as int,
        k,
    ) by {
        assert(t.items.contains_key(k));
    }
}

/// Where nothing is damaged, everything is saved, at every depth: every pair
/// with its value, every nested bucket with its counter and all that it holds,
/// and nothing else. What is copied is counted, and nothing is skipped.
pub proof fn law_undamaged_buckets_are_saved_whole(
    src: Source,
    root: u64,
    manifest: ManifestView,
    path: Seq<Seq<u8>>,
    level: nat,
)
    requires
        undamaged(src, root, level),
    ensures
        ({
            let (r, after) = salvage::saved(
                src,
                root,
                salvage::unplaced(),
                Saved { tree: tree::empty_tree(), manifest },
                path,
                level,
                src.buf.len(),
            );
            let n = entries_of(src, root).len() as int;
            &&& r is Ok
            &&& rescued(src, root, path.len() == 0, after.tree, level)
            &&& after.manifest == copied(
                manifest,
                tally(src, root, path.len() == 0, level, n),
            )
        }),
{
    let s = Saved { tree: tree::empty_tree(), manifest };
    assert(manifest == copied(manifest, (0nat, 0nat)));
    lemma_rescued(
        src,
        root,
        salvage::unplaced(),
        s,
        manifest,
        path,
        level,
        src.buf.len(),
        0,
    );
}

/// Whether a manifest tells that a bucket, or something in it, was skipped.
pub open spec fn noted(m: ManifestView, path: Seq<Seq<u8>>, key: Option<Seq<u8>>) -> bool {
    exists|j: int|
        0 <= j < m.skipped_records.len() && (#[trigger] m.skipped_records[j]).bucket_path == path
            && m.skipped_records[j].key == key
}

/// Whether a manifest tells all that another tells of what was skipped.
pub open spec fn tells_on(before: ManifestView, after: ManifestView) -> bool {
    &&& before.skipped_records.len() <= after.skipped_records.len()
    &&& forall|j: int|
        0 <= j < before.skipped_records.len() ==> #[trigger] before.skipped_records[j]
            == after.skipped_records[j]
}

proof fn lemma_noted_on(
    before: ManifestView,
    after: ManifestView,
    path: Seq<Seq<u8>>,
    key: Option<Seq<u8>>,
)
    requires
        tells_on(before, after),
        noted(before, path, key),
    ensures
        noted(after, path, key),
{
    let j = choose|j: int|
        0 <= j < before.skipped_records.len() && (
        #[trigger] before.skipped_records[j]).bucket_path == path && before.skipped_records[j].key
            == key;
    assert(after.skipped_records[j] == before.skipped_records[j]);
}

proof fn lemma_noted_now(
    m: ManifestView,
    path: Seq<Seq<u8>>,
    key: Option<Seq<u8>>,
    reason: Seq<char>,
)
    ensures
        noted(salvage::with_skipped(m, path, key, reason), path, key),
        tells_on(m, salvage::with_skipped(m, path, key, reason)),
{
    let after = salvage::with_skipped(m, path, key, reason);
    let j = m.skipped_records.len() as int;
    assert(after.skipped_records[j].bucket_path == path && after.skipped_records[j].key == key);
}

/// What was skipped stays noted.
pub proof fn law_skips_stay_noted(
    src: Source,
    root: u64,
    c: PageCursorView,
    s: Saved,
    path: Seq<Seq<u8>>,
    depth: nat,
    steps: nat,
)
    ensures
        tells_on(s.manifest, salvage::saved(src, root, c, s, path, depth, steps).1.manifest),
    decreases depth, steps,
{
    lemma_noted_now(s.manifest, path, None, salvage::untraversable());
    if steps > 0 {
        let left = (steps - 1) as nat;
        match cursor::moved_on(src, root, c) {
            (Ok(Some(DataView::KeyValue(key, value))), at) => {
                if path.len() == 0 {
                    law_skips_stay_noted(src, root, at, s, path, depth, left);
                } else if tree::put(s.tree, key, value) is Ok {
                    let t = tree::put(s.tree, key, value)->Ok_0.1;
                    let next = Saved {
                        tree: t,
                        manifest: ManifestView {
                            copied_records: tree::bumped(s.manifest.copied_records),
                            ..s.manifest
                        },
                    };
                    law_skips_stay_noted(src, root, at, next, path, depth, left);
                }
            },
            (Ok(Some(DataView::Bucket(name))), at) => {
                match salvage::bucket_in(src, root, name) {
                    Err(e) => {
                        let text = error::message_of(e);
                        let next = Saved {
                            manifest: salvage::with_skipped(s.manifest, path, Some(name), text),
                            ..s
                        };
                        lemma_noted_now(s.manifest, path, Some(name), text);
                        law_skips_stay_noted(src, root, at, next, path, depth, left);
                    },
                    Ok(found) => {
                        if depth > 0 && tree::create_bucket(s.tree, name) is Ok {
                            let made = tree::create_bucket(s.tree, name)->Ok_0;
                            let counted = ManifestView {
                                copied_buckets: tree::bumped(s.manifest.copied_buckets),
                                ..s.manifest
                            };
                            let start = Saved { tree: tree::empty_tree(), manifest: counted };
                            law_skips_stay_noted(
                                src,
                                found.root_page,
                                salvage::unplaced(),
                                start,
                                path.push(name),
                                (depth - 1) as nat,
                                src.buf.len(),
                            );
                            let (r, sub) = salvage::saved(
                                src,
                                found.root_page,
                                salvage::unplaced(),
                                start,
                                path.push(name),
                                (depth - 1) as nat,
                                src.buf.len(),
                            );
                            let below = Tree {
                                next_int: if r is Ok {
                                    found.next_int
                                } else {
                                    sub.tree.next_int
                                },
                                ..sub.tree
                            };
                            let after = Saved {
                                tree: tree::with_child(made, name, below),
                                manifest: sub.manifest,
                            };
                            if r is Ok {
                                law_skips_stay_noted(src, root, at, after, path, depth, left);
                            }
                        }
                    },
                }
            },
            _ => {},
        }
    }
}

#[verifier::rlimit(30)]
#[verifier::spinoff_prover]
proof fn lemma_damage_noted(
    src: Source,
    root: u64,
    height: nat,
    c: PageCursorView,
    s: Saved,
    path: Seq<Seq<u8>>,
    depth: nat,
    steps: nat,
    p: int,
    i: int,
)
    requires
        readable(src, root, height),
        depth > 0,
        0 <= p <= i < cursor_laws::entries(src, root, height).len(),
        before(src, root, height, c, p),
        cursor_laws::entries(src, root, height).len() - p < steps,
        cursor_laws::entries(src, root, height)[i] is Bucket,
        salvage::bucket_in(src, root, cursor_laws::entries(src, root, height)[i].key()) is Err,
        salvage::saved(src, root, c, s, path, depth, steps).0 is Ok,
    ensures
        noted(
            salvage::saved(src, root, c, s, path, depth, steps).1.manifest,
            path,
            Some(cursor_laws::entries(src, root, height)[i].key()),
        ),
    decreases steps,
{
    let l = cursor_laws::entries(src, root, height);
    salvage_laws::lemma_step(src, root, height, c, p);
    let at = cursor::moved_on(src, root, c).1;
    let left = (steps - 1) as nat;
    match l[p] {
        DataView::KeyValue(key, value) => {
            if path.len() == 0 {
                lemma_damage_noted(src, root, height, at, s, path, depth, left, p + 1, i);
            } else {
                let t = tree::put(s.tree, key, value)->Ok_0.1;
                let next = Saved {
                    tree: t,
                    manifest: ManifestView {
                        copied_records: tree::bumped(s.manifest.copied_records),
                        ..s.manifest
                    },
                };
                lemma_damage_noted(src, root, height, at, next, path, depth, left, p + 1, i);
            }
        },
        DataView::Bucket(name) => match salvage::bucket_in(src, root, name) {
            Err(e) => {
                let text = error::message_of(e);
                let next = Saved {
                    manifest: salvage::with_skipped(s.manifest, path, Some(name), text),
                    ..s
                };
                if i == p {
                    lemma_noted_now(s.manifest, path, Some(name), text);
                    law_skips_stay_noted(src, root, at, next, path, depth, left);
                    lemma_noted_on(
                        next.manifest,
                        salvage::saved(src, root, at, next, path, depth, left).1.manifest,
                        path,
                        Some(name),
                    );
                } else {
                    lemma_damage_noted(src, root, height, at, next, path, depth, left, p + 1, i);
                }
            },
            Ok(found) => {
                let made = tree::create_bucket(s.tree, name)->Ok_0;
                let counted = ManifestView {
                    copied_buckets: tree::bumped(s.manifest.copied_buckets),
                    ..s.manifest
                };
                let (r, sub) = salvage::saved(
                    src,
                    found.root_page,
                    salvage::unplaced(),
                    Saved { tree: tree::empty_tree(), manifest: counted },
                    path.push(name),
                    (depth - 1) as nat,
                    src.buf.len(),
                );
                let below = Tree {
                    next_int: if r is Ok {
                        found.next_int
                    } else {
                        sub.tree.next_int
                    },
                    ..sub.tree
                };
                let next = Saved {
                    tree: tree::with_child(made, name, below),
                    manifest: sub.manifest,
                };
                assert(r is Ok);
                lemma_damage_noted(src, root, height, at, next, path, depth, left, p + 1, i);
            },
        },
    }
}

/// A nested bucket whose record cannot be read is skipped, and that is noted
/// with its name; a bucket that cannot be walked through is noted too.
pub proof fn law_damage_is_noted(
    src: Source,
    root: u64,
    height: nat,
    s: Saved,
    path: Seq<Seq<u8>>,
    depth: nat,
    i: int,
)
    requires
        depth > 0,
        src.buf.len() > 0,
    ensures
        ({
            let (r, after) = salvage::saved(
                src,
                root,
                salvage::unplaced(),
                s,
                path,
                depth,
                src.buf.len(),
            );
            let l = cursor_laws::entries(src, root, height);
            &&& readable(src, root, height) && 0 <= i < l.len() && l[i] is Bucket && r is Ok
                && salvage::bucket_in(src, root, l[i].key()) is Err ==> noted(
                after.manifest,
                path,
                Some(l[i].key()),
            )
            &&& cursor::moved_on(src, root, salvage::unplaced()).0 is Err ==> r is Ok && noted(
                after.manifest,
                path,
                None,
            )
        }),
{
    let c = salvage::unplaced();
    let l = cursor_laws::entries(src, root, height);
    let n = src.buf.len();
    lemma_noted_now(s.manifest, path, None, salvage::untraversable());
    if readable(src, root, height) && 0 <= i < l.len() && l[i] is Bucket && salvage::saved(
        src,
        root,
        c,
        s,
        path,
        depth,
        n,
    ).0 is Ok && salvage::bucket_in(src, root, l[i].key()) is Err {
        lemma_damage_noted(src, root, height, c, s, path, depth, n, 0, i);
    }
}

} // verus!
