//! What holds of saving buckets.

use crate::api::cursor as index;
use crate::api::tree::{self, Tree};
use crate::bytes;
use crate::data::DataView;
use crate::error::{self, Error};
use crate::storage::cursor::{self, PageCursorView, Source};
use crate::storage::cursor_laws;
use crate::storage::salvage::{self, ManifestView, Saved};
use vstd::prelude::*;

verus! {

/// Whether the first `n` pairs of a list are stored.
pub open spec fn stored(t: Tree, l: Seq<DataView>, n: int) -> bool {
    forall|i: int|
        0 <= i < n && l[i] is KeyValue ==> tree::value_of(t, (#[trigger] l[i]).key()) == Some(
            l[i]->KeyValue_1,
        )
}

/// Whether a cursor comes upon entry `p` next.
pub open spec fn before(src: Source, root: u64, depth: nat, c: PageCursorView, p: int) -> bool {
    if p == 0 {
        c.stack.len() == 0
    } else {
        cursor_laws::stands(src, root, depth, c) && c.next_called && cursor_laws::offset(src, root, depth, c.stack) == p - 1
    }
}

pub proof fn lemma_step(src: Source, root: u64, depth: nat, c: PageCursorView, p: int)
    requires
        cursor_laws::whole(src, root, depth),
        depth <= src.buf.len(),
        0 <= p <= cursor_laws::entries(src, root, depth).len(),
        before(src, root, depth, c, p),
    ensures
        ({
            let l = cursor_laws::entries(src, root, depth);
            let (r, after) = cursor::moved_on(src, root, c);
            if p < l.len() {
                r == Ok::<Option<DataView>, Error>(Some(l[p])) && before(
                    src,
                    root,
                    depth,
                    after,
                    p + 1,
                )
            } else {
                r == Ok::<Option<DataView>, Error>(None)
            }
        }),
{
    if p == 0 {
        cursor_laws::law_cursor_starts_at_either_end(src, root, depth, c);
    } else {
        cursor_laws::law_cursor_moves_on(src, root, depth, c);
    }
}

proof fn lemma_stored_on(t: Tree, u: Tree, l: Seq<DataView>, p: int)
    requires
        index::in_order(l),
        0 <= p < l.len(),
        stored(t, l, p),
        forall|k: Seq<u8>|
            k != l[p].key() ==> #[trigger] tree::value_of(u, k) == tree::value_of(t, k),
        l[p] is KeyValue ==> tree::value_of(u, l[p].key()) == Some(l[p]->KeyValue_1),
    ensures
        stored(u, l, p + 1),
{
    assert forall|i: int| 0 <= i < p + 1 && l[i] is KeyValue implies tree::value_of(
        u,
        (#[trigger] l[i]).key(),
    ) == Some(l[i]->KeyValue_1) by {
        if i < p {
            assert(bytes::lex_lt(l[i].key(), l[p].key()));
            bytes::lemma_lex_irreflexive(l[p].key());
        }
    }
}

#[verifier::rlimit(30)]
#[verifier::spinoff_prover]
proof fn lemma_saved(
    src: Source,
    root: u64,
    height: nat,
    c: PageCursorView,
    s: Saved,
    path: Seq<Seq<u8>>,
    depth: nat,
    steps: nat,
    p: int,
)
    requires
        cursor_laws::whole(src, root, height),
        cursor_laws::ordered(src, root, height),
        height <= src.buf.len(),
        path.len() > 0,
        depth > 0,
        0 <= p <= cursor_laws::entries(src, root, height).len(),
        before(src, root, height, c, p),
        cursor_laws::entries(src, root, height).len() - p < steps,
        stored(s.tree, cursor_laws::entries(src, root, height), p),
        salvage::saved(src, root, c, s, path, depth, steps).0 is Ok,
    ensures
        stored(
            salvage::saved(src, root, c, s, path, depth, steps).1.tree,
            cursor_laws::entries(src, root, height),
            cursor_laws::entries(src, root, height).len() as int,
        ),
    decreases steps,
{
    let l = cursor_laws::entries(src, root, height);
    lemma_step(src, root, height, c, p);
    let at = cursor::moved_on(src, root, c).1;
    let left = (steps - 1) as nat;
    if p < l.len() {
        match l[p] {
            DataView::KeyValue(key, value) => {
                let t = tree::put(s.tree, key, value)->Ok_0.1;
                let next = Saved {
                    tree: t,
                    manifest: ManifestView {
                        copied_records: tree::bumped(s.manifest.copied_records),
                        ..s.manifest
                    },
                };
                lemma_stored_on(s.tree, t, l, p);
                lemma_saved(src, root, height, at, next, path, depth, left, p + 1);
            },
            DataView::Bucket(name) => match salvage::bucket_in(src, root, name) {
                Err(e) => {
                    let next = Saved {
                        manifest: salvage::with_skipped(
                            s.manifest,
                            path,
                            Some(name),
                            error::message_of(e),
                        ),
                        ..s
                    };
                    lemma_stored_on(s.tree, s.tree, l, p);
                    lemma_saved(src, root, height, at, next, path, depth, left, p + 1);
                },
                Ok(found) => {
                    let made = tree::create_bucket(s.tree, name)->Ok_0;
                    let counted = ManifestView {
                        copied_buckets: tree::bumped(s.manifest.copied_buckets),
                        ..s.manifest
                    };
                    let (r, sub) = salvage::saved(
                        src,
                        found.root_page,
                        salvage::unplaced(),
                        Saved { tree: tree::empty_tree(), manifest: counted },
                        path.push(name),
                        (depth - 1) as nat,
                        src.buf.len(),
                    );
                    let below = Tree {
                        next_int: if r is Ok {
                            found.next_int
                        } else {
                            sub.tree.next_int
                        },
                        ..sub.tree
                    };
                    let next = Saved {
                        tree: tree::with_child(made, name, below),
                        manifest: sub.manifest,
                    };
                    assert(r is Ok);
                    lemma_stored_on(s.tree, next.tree, l, p);
                    lemma_saved(src, root, height, at, next, path, depth, left, p + 1);
                },
            },
        }
    }
}

/// Every pair of a bucket whose pages can be read, and are in order, is saved.
pub proof fn law_salvage_keeps_readable_pairs(
    src: Source,
    root: u64,
    height: nat,
    manifest: ManifestView,
    path: Seq<Seq<u8>>,
    depth: nat,
    i: int,
)
    requires
        cursor_laws::whole(src, root, height),
        cursor_laws::ordered(src, root, height),
        height <= src.buf.len(),
        path.len() > 0,
        depth > 0,
        0 <= i < cursor_laws::entries(src, root, height).len() < src.buf.len(),
        cursor_laws::entries(src, root, height)[i] is KeyValue,
    ensures
        ({
            let (r, after) = salvage::saved(
                src,
                root,
                salvage::unplaced(),
                Saved { tree: tree::empty_tree(), manifest },
                path,
                depth,
                src.buf.len(),
            );
            let pair = cursor_laws::entries(src, root, height)[i];
            r is Ok ==> tree::value_of(after.tree, pair.key()) == Some(pair->KeyValue_1)
        }),
{
    let s = Saved { tree: tree::empty_tree(), manifest };
    let l = cursor_laws::entries(src, root, height);
    if salvage::saved(src, root, salvage::unplaced(), s, path, depth, src.buf.len()).0 is Ok {
        lemma_saved(
            src,
            root,
            height,
            salvage::unplaced(),
            s,
            path,
            depth,
            src.buf.len(),
            0,
        );
        assert(l[i] is KeyValue);
    }
}

} // verus!
