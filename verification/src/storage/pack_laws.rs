//! What holds of buckets that were laid out in pages: they are read back whole.

use crate::api::cursor as index;
use crate::api::tree::{self, Item, Node, Tree};
use crate::assoc;
use crate::bytemap;
use crate::bytes;
use crate::data::DataView;
use crate::error::Error;
use crate::storage::cursor::{self, PageCursorView, SearchPath, Source};
use crate::storage::cursor_laws;
use crate::storage::meta::BucketMeta;
use crate::storage::pack;
use crate::storage::page;
use crate::storage::salvage::{self, ManifestView, Saved};
use crate::storage::salvage_laws;
use vstd::prelude::*;

verus! {

/// Whether the contents of a bucket, and all within them, can be listed.
pub open spec fn listable(t: Tree) -> bool
    decreases t,
{
    let l = tree::listing(t);
    &&& bytemap::ascending(l)
    &&& assoc::assoc(l) == t.items
    &&& forall|i: int|
        0 <= i < l.len() && t.items.contains_key((#[trigger] l[i]).0) && t.items[l[i].0] is Bucket
            ==> listable(t.items[l[i].0]->Bucket_0)
}

/// What a bucket in memory holds can be listed.
pub proof fn lemma_listable(bucket: Node)
    requires
        bucket.wf(),
    ensures
        listable(bucket@),
    decreases bucket@,
{
    let t = bucket@;
    let l = tree::listing(t);
    bucket.lemma_leaves();
    assert forall|i: int|
        0 <= i < l.len() && t.items.contains_key((#[trigger] l[i]).0)
            && t.items[l[i].0] is Bucket implies listable(t.items[l[i].0]->Bucket_0) by {
        let held = bucket.leaves()[i];
        assert(l[i] == (held.0, held.1.item()));
        held.1.lemma_item();
        let child = *held.1->Bucket_0;
        assert(t.items[l[i].0]->Bucket_0 == child@);
        assert(decreases_to!(t => t.items[l[i].0]->Bucket_0));
        lemma_listable(child);
    }
}

/// Whether a bucket holds nothing but buckets, as the root of a file does.
pub open spec fn only_buckets(t: Tree) -> bool {
    forall|key: Seq<u8>| #[trigger] t.items.contains_key(key) ==> t.items[key] is Bucket
}

proof fn lemma_listed(t: Tree, i: int)
    requires
        listable(t),
        0 <= i < tree::listing(t).len(),
    ensures
        t.items.contains_key(tree::listing(t)[i].0),
        t.items[tree::listing(t)[i].0] == tree::listing(t)[i].1,
        !assoc::assoc(tree::listing(t).take(i)).contains_key(tree::listing(t)[i].0),
        assoc::assoc(tree::listing(t).take(i + 1)) == assoc::assoc(
            tree::listing(t).take(i),
        ).insert(tree::listing(t)[i].0, tree::listing(t)[i].1),
{
    let l = tree::listing(t);
    bytemap::lemma_ascending_distinct(l);
    assoc::lemma_assoc_at(l, i);
    let front = l.take(i);
    assoc::lemma_assoc_has(front, l[i].0);
    if assoc::has_key(front, l[i].0) {
        let j = choose|j: int| 0 <= j < front.len() && (#[trigger] front[j]).0 == l[i].0;
        assert(l[j].0 != l[i].0);
    }
    assert(l.take(i + 1).drop_last() =~= front);
    assert(l.take(i + 1).last() == l[i]);
}

/// The block of a bucket that has entries is a tree of its own, and its entries
/// are those of the bucket, in order.
proof fn lemma_one_leaf(src: Source, root: u64, t: Tree, from: int, to: int)
    requires
        pack::holds(src, root, t, from, to),
        listable(t),
        src.buf.len() <= usize::MAX,
    ensures
        tree::listing(t).len() < src.buf.len(),
        index::in_order(index::data_in(t)),
        tree::listing(t).len() > 0 ==> {
            &&& cursor_laws::whole(src, root, 1)
            &&& cursor_laws::ordered(src, root, 1)
            &&& cursor_laws::entries(src, root, 1) == index::data_in(t)
        },
{
    reveal(cursor::node_of);
    let b = cursor::node_of(src, root)->Ok_0;
    let l = tree::listing(t);
    let d = index::data_in(t);
    assert(page::block_of(src.buf, root, src.pagesize, src.version) == Ok::<Seq<u8>, Error>(b));
    page::lemma_block_room(src.buf, root, src.pagesize, src.version);
    assert forall|i: int, j: int| 0 <= i < j < d.len() implies bytes::lex_lt(
        (#[trigger] d[i]).key(),
        (#[trigger] d[j]).key(),
    ) by {
        assert(bytes::lex_lt(l[i].0, l[j].0));
    }
    if l.len() > 0 {
        let e = cursor_laws::entries(src, root, 1);
        assert(e.len() == l.len());
        assert forall|i: int| 0 <= i < l.len() implies e[i] == d[i] by {
            assert(pack::entry_held(b, i, l[i]));
        }
        assert(e =~= d);
    }
}

/// The record of a nested bucket is found.
proof fn lemma_bucket_found(src: Source, root: u64, t: Tree, from: int, to: int, i: int)
    requires
        pack::holds(src, root, t, from, to),
        listable(t),
        1 <= src.buf.len() <= usize::MAX,
        0 <= i < tree::listing(t).len(),
        tree::listing(t)[i].1 is Bucket,
    ensures
        ({
            let b = cursor::node_of(src, root)->Ok_0;
            salvage::bucket_in(src, root, tree::listing(t)[i].0) == Ok::<BucketMeta, Error>(
                BucketMeta::of(page::leaf_value(b, i)),
            )
        }),
{
    let l = tree::listing(t);
    let d = index::data_in(t);
    let b = cursor::node_of(src, root)->Ok_0;
    let name = l[i].0;
    lemma_one_leaf(src, root, t, from, to);
    cursor_laws::law_seek_finds_the_key(src, root, 1, name);
    assert(d[i].key() == name);
    assert(index::holds_key(d, name));
    assert forall|j: int| 0 <= j < i implies bytes::lex_lt((#[trigger] d[j]).key(), name) by {
        assert(d[i].key() == name);
    }
    assert forall|j: int| i <= j < d.len() implies !bytes::lex_lt((#[trigger] d[j]).key(), name) by {
        bytes::lemma_lex_irreflexive(name);
        if i < j && bytes::lex_lt(d[j].key(), name) {
            assert(bytes::lex_lt(d[i].key(), d[j].key()));
            bytes::lemma_lex_transitive(name, d[j].key(), name);
        }
    }
    index::lemma_rank(d, name, i);
    let way = cursor::searched(src, Seq::empty(), root, name).1;
    assert(way.len() == 1 && way[0].id == root && way[0].index == i);
    assert(way.last() == way[0]);
    assert(pack::entry_held(b, i, l[i]));
}

/// Saving a nested bucket that is saved whole.
proof fn lemma_saved_bucket(
    src: Source,
    root: u64,
    c: PageCursorView,
    s: Saved,
    path: Seq<Seq<u8>>,
    depth: nat,
    steps: nat,
    name: Seq<u8>,
    found: BucketMeta,
    child: Tree,
)
    requires
        depth > 0,
        steps > 0,
        cursor::moved_on(src, root, c).0 == Ok::<Option<DataView>, Error>(
            Some(DataView::Bucket(name)),
        ),
        salvage::bucket_in(src, root, name) == Ok::<BucketMeta, Error>(found),
        !s.tree.items.contains_key(name),
        nested(src, s, path, depth, name, found).0 is Ok,
        nested(src, s, path, depth, name, found).1.tree.items == child.items,
        found.next_int == child.next_int,
    ensures
        salvage::saved(src, root, c, s, path, depth, steps) == salvage::saved(
            src,
            root,
            cursor::moved_on(src, root, c).1,
            Saved {
                tree: tree::with_child(tree::create_bucket(s.tree, name)->Ok_0, name, child),
                manifest: nested(src, s, path, depth, name, found).1.manifest,
            },
            path,
            depth,
            (steps - 1) as nat,
        ),
{
    let sub = nested(src, s, path, depth, name, found).1;
    assert(Tree { next_int: found.next_int, ..sub.tree } == child);
}

/// Saving what is in a nested bucket.
spec fn nested(
    src: Source,
    s: Saved,
    path: Seq<Seq<u8>>,
    depth: nat,
    name: Seq<u8>,
    found: BucketMeta,
) -> (Result<(), Error>, Saved) {
    salvage::saved(
        src,
        found.root_page,
        salvage::unplaced(),
        Saved {
            tree: tree::empty_tree(),
            manifest: ManifestView {
                copied_buckets: tree::bumped(s.manifest.copied_buckets),
                ..s.manifest
            },
        },
        path.push(name),
        (depth - 1) as nat,
        src.buf.len(),
    )
}

/// Saving what is held, from entry `p` on.
#[verifier::rlimit(30)]
#[verifier::spinoff_prover]
proof fn lemma_saved_whole(
    src: Source,
    root: u64,
    t: Tree,
    c: PageCursorView,
    s: Saved,
    path: Seq<Seq<u8>>,
    depth: nat,
    steps: nat,
    p: int,
    from: int,
    to: int,
)
    requires
        pack::holds(src, root, t, from, to),
        listable(t),
        src.pagesize > 0,
        src.buf.len() <= usize::MAX,
        path.len() > 0 || only_buckets(t),
        pack::pages_of(t, src.pagesize as int) <= depth,
        0 <= p <= tree::listing(t).len(),
        tree::listing(t).len() - p < steps,
        salvage_laws::before(src, root, 1, c, p),
        s.tree.items == assoc::assoc(tree::listing(t).take(p)),
    ensures
        ({
            let (r, after) = salvage::saved(src, root, c, s, path, depth, steps);
            &&& r is Ok
            &&& after.tree.items == t.items
            &&& after.manifest.skipped_records == s.manifest.skipped_records
            &&& after.manifest.skipped_pages == s.manifest.skipped_pages
        }),
    decreases t, tree::listing(t).len() - p,
{
    let l = tree::listing(t);
    let d = index::data_in(t);
    let ps = src.pagesize as int;
    let b = cursor::node_of(src, root)->Ok_0;
    lemma_one_leaf(src, root, t, from, to);
    if l.len() == 0 {
        let only = seq![SearchPath { index: 0, id: root }];
        assert(only.last() == SearchPath { index: 0, id: root });
        assert(cursor::first_below(src, only) == (None::<Error>, only));
        assert(l.take(p) =~= l);
        assert(cursor::entry_at(src, only) == Ok::<Option<DataView>, Error>(None));
        assert(cursor::moved_on(src, root, c).0 == Ok::<Option<DataView>, Error>(None));
        assert(salvage::saved(src, root, c, s, path, depth, steps).1 == s);
    } else {
        salvage_laws::lemma_step(src, root, 1, c, p);
        let at = cursor::moved_on(src, root, c).1;
        let left = (steps - 1) as nat;
        if p < l.len() {
            lemma_listed(t, p);
            assert(d[p] == index::data_of(l[p]));
            match l[p].1 {
                Item::Value(value) => {
                    let key = l[p].0;
                    assert(path.len() > 0);
                    let next = Saved {
                        tree: tree::put(s.tree, key, value)->Ok_0.1,
                        manifest: ManifestView {
                            copied_records: tree::bumped(s.manifest.copied_records),
                            ..s.manifest
                        },
                    };
                    lemma_saved_whole(src, root, t, at, next, path, depth, left, p + 1, from, to);
                    assert(salvage::saved(src, root, c, s, path, depth, steps) == salvage::saved(
                        src,
                        root,
                        at,
                        next,
                        path,
                        depth,
                        left,
                    ));
                },
                Item::Bucket(child) => {
                    let name = l[p].0;
                    lemma_bucket_found(src, root, t, from, to, p);
                    let found = BucketMeta::of(page::leaf_value(b, p));
                    assert(pack::entry_held(b, p, l[p]));
                    assert(decreases_to!(t => t.items[name]->Bucket_0));
                    pack::lemma_nested_pages(t, ps, p);
                    pack::lemma_pages_of(t, ps);
                    let made = tree::create_bucket(s.tree, name)->Ok_0;
                    let counted = ManifestView {
                        copied_buckets: tree::bumped(s.manifest.copied_buckets),
                        ..s.manifest
                    };
                    let below = Saved { tree: tree::empty_tree(), manifest: counted };
                    assert(tree::listing(child).take(0) =~= Seq::<(Seq<u8>, Item)>::empty());
                    lemma_one_leaf(src, found.root_page, child, from, to);
                    lemma_saved_whole(
                        src,
                        found.root_page,
                        child,
                        salvage::unplaced(),
                        below,
                        path.push(name),
                        (depth - 1) as nat,
                        src.buf.len(),
                        0,
                        from,
                        to,
                    );
                    let sub = nested(src, s, path, depth, name, found).1;
                    let next = Saved {
                        tree: tree::with_child(made, name, child),
                        manifest: sub.manifest,
                    };
                    assert(next.tree.items =~= assoc::assoc(l.take(p + 1)));
                    lemma_saved_bucket(src, root, c, s, path, depth, steps, name, found, child);
                    lemma_saved_whole(src, root, t, at, next, path, depth, left, p + 1, from, to);
                },
            }
        } else {
            assert(l.take(p) =~= l);
        }
    }
}

/// What the pages of a file hold is read back whole, and nothing is skipped.
pub proof fn law_held_buckets_are_read_whole(
    src: Source,
    root: u64,
    t: Tree,
    from: int,
    to: int,
    manifest: ManifestView,
)
    requires
        pack::holds(src, root, t, from, to),
        listable(t),
        only_buckets(t),
        src.pagesize > 0,
        src.buf.len() <= usize::MAX,
        pack::pages_of(t, src.pagesize as int) <= src.buf.len(),
    ensures
        ({
            let (r, after) = salvage::saved(
                src,
                root,
                salvage::unplaced(),
                Saved { tree: tree::empty_tree(), manifest },
                Seq::empty(),
                src.buf.len(),
                src.buf.len(),
            );
            &&& r is Ok
            &&& after.tree.items == t.items
            &&& after.manifest.skipped_records == manifest.skipped_records
            &&& after.manifest.skipped_pages == manifest.skipped_pages
        }),
{
    lemma_one_leaf(src, root, t, from, to);
    assert(tree::listing(t).take(0) =~= Seq::<(Seq<u8>, Item)>::empty());
    lemma_saved_whole(
        src,
        root,
        t,
        salvage::unplaced(),
        Saved { tree: tree::empty_tree(), manifest },
        Seq::empty(),
        src.buf.len(),
        src.buf.len(),
        0,
        from,
        to,
    );
}

} // verus!
