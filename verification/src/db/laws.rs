//! What loading gives back of what was written.

use crate::bytes;
use crate::db::commit;
use crate::db::load;
use crate::db::path;
use crate::db::state::{self, BucketModel, Model};
use crate::db::write::StagedView;
use crate::error::Error;
use crate::page::{self, Meta, NodeView, RecordView, Slice, BRANCH, LEAF, NODE_HEADER};
use crate::tree::{self, ItemView, LevelNodeView, TreeView};
use crate::tree_laws;
use vstd::prelude::*;

verus! {

/// What a walk finds under one page: where the records stand, and the pages
/// it visits.
#[verifier::ext_equal]
struct Read {
    page: u64,
    slots: Seq<(Slice, Slice)>,
    region: Set<u64>,
}

/// Whether a walk that comes to the page finds just that, and then goes on.
spec fn reads_as(image: Seq<u8>, meta: Meta, r: Read) -> bool {
    forall|rest: Seq<u64>, visited: Set<u64>|
        visited.disjoint(r.region) ==> #[trigger] load::walk(
            image,
            meta,
            seq![r.page] + rest,
            visited,
        ) == page::joined(r.slots, load::walk(image, meta, rest, visited.union(r.region)))
}

spec fn flat(reads: Seq<Read>) -> Seq<(Slice, Slice)>
    decreases reads.len(),
{
    if reads.len() == 0 {
        Seq::empty()
    } else {
        reads[0].slots + flat(reads.drop_first())
    }
}

spec fn regions(reads: Seq<Read>) -> Set<u64>
    decreases reads.len(),
{
    if reads.len() == 0 {
        Set::empty()
    } else {
        reads[0].region.union(regions(reads.drop_first()))
    }
}

spec fn pages_of(reads: Seq<Read>) -> Seq<u64> {
    reads.map_values(|r: Read| r.page)
}

spec fn apart(reads: Seq<Read>) -> bool {
    forall|i: int, j: int|
        0 <= i < j < reads.len() ==> (#[trigger] reads[i]).region.disjoint(
            (#[trigger] reads[j]).region,
        )
}

spec fn within(region: Set<u64>, lo: int, hi: int) -> bool {
    forall|p: u64| #[trigger] region.contains(p) ==> lo <= p < hi
}

proof fn lemma_regions(reads: Seq<Read>, p: u64)
    ensures
        regions(reads).contains(p) <==> exists|i: int|
            0 <= i < reads.len() && (#[trigger] reads[i]).region.contains(p),
    decreases reads.len(),
{
    if reads.len() > 0 {
        let tail = reads.drop_first();
        lemma_regions(tail, p);
        if regions(tail).contains(p) {
            let i = choose|i: int| 0 <= i < tail.len() && (#[trigger] tail[i]).region.contains(p);
            assert(reads[i + 1].region.contains(p));
        }
        if exists|i: int| 0 <= i < reads.len() && (#[trigger] reads[i]).region.contains(p) {
            let i = choose|i: int|
                0 <= i < reads.len() && (#[trigger] reads[i]).region.contains(p);
            if i > 0 {
                assert(tail[i - 1].region.contains(p));
            }
        }
    }
}

proof fn lemma_flat_add(a: Seq<Read>, b: Seq<Read>)
    ensures
        flat(a + b) == flat(a) + flat(b),
    decreases a.len(),
{
    if a.len() == 0 {
        assert(a + b =~= b);
        assert(flat(a) + flat(b) =~= flat(b));
    } else {
        lemma_flat_add(a.drop_first(), b);
        assert((a + b).drop_first() =~= a.drop_first() + b);
        assert(flat(a + b) =~= flat(a) + flat(b));
    }
}

/// A walk over several pages finds what is under each, in order.
#[verifier::rlimit(30)]
#[verifier::spinoff_prover]
proof fn lemma_run(
    image: Seq<u8>,
    meta: Meta,
    reads: Seq<Read>,
    rest: Seq<u64>,
    visited: Set<u64>,
)
    requires
        forall|i: int| 0 <= i < reads.len() ==> reads_as(image, meta, #[trigger] reads[i]),
        apart(reads),
        forall|i: int|
            0 <= i < reads.len() ==> visited.disjoint((#[trigger] reads[i]).region),
    ensures
        load::walk(image, meta, pages_of(reads) + rest, visited) == page::joined(
            flat(reads),
            load::walk(image, meta, rest, visited.union(regions(reads))),
        ),
    decreases reads.len(),
{
    if reads.len() == 0 {
        assert(pages_of(reads) + rest =~= rest);
        assert(visited.union(regions(reads)) =~= visited);
        if let Ok(t) = load::walk(image, meta, rest, visited) {
            assert(flat(reads) + t =~= t);
        }
    } else {
        let first = reads[0];
        let tail = reads.drop_first();
        let seen = visited.union(first.region);
        let todo = pages_of(tail) + rest;
        assert(pages_of(reads) + rest =~= seq![first.page] + todo);
        assert(reads_as(image, meta, first));
        assert(load::walk(image, meta, seq![first.page] + todo, visited) == page::joined(
            first.slots,
            load::walk(image, meta, todo, seen),
        ));
        assert forall|i: int| 0 <= i < tail.len() implies reads_as(
            image,
            meta,
            #[trigger] tail[i],
        ) by {
            assert(tail[i] == reads[i + 1]);
        }
        assert forall|i: int, j: int| 0 <= i < j < tail.len() implies (
        #[trigger] tail[i]).region.disjoint((#[trigger] tail[j]).region) by {
            assert(reads[i + 1].region.disjoint(reads[j + 1].region));
        }
        assert forall|i: int| 0 <= i < tail.len() implies seen.disjoint(
            (#[trigger] tail[i]).region,
        ) by {
            assert(reads[0].region.disjoint(reads[i + 1].region));
            assert(visited.disjoint(reads[i + 1].region));
        }
        lemma_run(image, meta, tail, rest, seen);
        assert(seen.union(regions(tail)) =~= visited.union(regions(reads)));
        if let Ok(t) = load::walk(image, meta, rest, visited.union(regions(reads))) {
            assert(first.slots + (flat(tail) + t) =~= flat(reads) + t);
        }
    }
}

/// Whether a file can hold a tree up to the high-water mark of its meta page.
spec fn roomy(image: Seq<u8>, meta: Meta) -> bool {
    &&& meta.page_size >= 1024
    &&& meta.high_water * meta.page_size <= image.len() <= usize::MAX
}

proof fn lemma_node_at(
    image: Seq<u8>,
    meta: Meta,
    kind: u8,
    count: nat,
    payload: Seq<u8>,
    at: u64,
    visited: Set<u64>,
)
    requires
        roomy(image, meta),
        kind == LEAF || kind == BRANCH,
        tree::node_fits(count, payload.len() as int, meta.page_size as int),
        bytes::stands_at(
            image,
            at * meta.page_size,
            tree::node_bytes(kind, count, payload, meta.page_size as int, at),
        ),
        2 <= at,
        at + tree::span_of(payload.len() as int, meta.page_size as int) <= meta.high_water,
        visited.disjoint(
            load::covered(
                at,
                tree::span_of(payload.len() as int, meta.page_size as int) as nat,
            ),
        ),
    ensures
        ({
            let w = tree::node_bytes(kind, count, payload, meta.page_size as int, at);
            let span = tree::span_of(payload.len() as int, meta.page_size as int) as nat;
            &&& load::node_at(image, meta, at, visited) == Ok::<NodeView, Error>(
                NodeView {
                    block: w,
                    kind,
                    count,
                    payload_len: payload.len(),
                    span,
                    page: at,
                },
            )
            &&& w.subrange(40, 40 + payload.len() as int) == payload
            &&& 40 + payload.len() <= w.len()
            &&& span >= 1
            &&& visited.union(load::covered(at, span)).insert(at) == visited.union(
                load::covered(at, span),
            )
        }),
{
    let ps = meta.page_size as int;
    let w = tree::node_bytes(kind, count, payload, ps, at);
    let s = image.skip(at * ps);
    let span = tree::span_of(payload.len() as int, ps) as nat;
    tree::lemma_span_covers(payload.len() as int, ps);
    load::lemma_page_inside(at as int, meta.high_water as int, ps);
    assert(s.subrange(0, w.len() as int) =~= image.subrange(at * ps, at * ps + w.len()));
    tree_laws::lemma_node_decodes(s, kind, count, payload, ps as nat, at);
    assert(load::covered(at, span).contains(at));
    assert forall|p: u64| at < p < at + span implies !(#[trigger] visited.contains(p)) by {
        assert(load::covered(at, span).contains(p));
    }
    assert(visited.union(load::covered(at, span)).insert(at) =~= visited.union(
        load::covered(at, span),
    ));
}

/// A slice of a node is the same slice of the file, from the node's place on.
proof fn lemma_moved_slice(image: Seq<u8>, w: Seq<u8>, off: int, slice: page::Slice)
    requires
        0 <= off,
        off + w.len() <= image.len(),
        image.subrange(off, off + w.len()) == w,
        slice.within(w.len() as int),
    ensures
        image.subrange(off + slice.offset, off + slice.offset + slice.len) == slice.of(w),
{
    assert(w.subrange(slice.offset as int, slice.offset + slice.len) =~= image.subrange(
        off + slice.offset,
        off + slice.offset + slice.len,
    ));
}

/// A leaf that was written reads as the records it was made of.
#[verifier::rlimit(40)]
#[verifier::spinoff_prover]
proof fn lemma_leaf_node(image: Seq<u8>, meta: Meta, recs: Seq<RecordView>, at: u64) -> (r: Read)
    requires
        roomy(image, meta),
        forall|j: int| 0 <= j < recs.len() ==> (#[trigger] recs[j]).key.len() <= u32::MAX,
        ({
            let payload = tree::entries_of(tree::leaf_items(recs));
            let ps = meta.page_size as int;
            &&& tree::node_fits(recs.len(), payload.len() as int, ps)
            &&& bytes::stands_at(image, at * ps, tree::node_bytes(LEAF, recs.len(), payload, ps, at))
            &&& at + tree::span_of(payload.len() as int, ps) <= meta.high_water
        }),
        2 <= at,
    ensures
        r.page == at,
        reads_as(image, meta, r),
        r.region == load::covered(
            at,
            tree::span_of(
                tree::entries_of(tree::leaf_items(recs)).len() as int,
                meta.page_size as int,
            ) as nat,
        ),
        load::records_at(image, r.slots) == recs,
{
    let ps = meta.page_size as int;
    let items = tree::leaf_items(recs);
    let payload = tree::entries_of(items);
    let w = tree::node_bytes(LEAF, recs.len(), payload, ps, at);
    let span = tree::span_of(payload.len() as int, ps) as nat;
    let region = load::covered(at, span);
    lemma_node_at(image, meta, LEAF, recs.len(), payload, at, Set::empty());
    tree_laws::lemma_leaf_slots_parse(w, recs, 0);
    assert(items.take(0) =~= Seq::<ItemView>::empty());
    assert(tree::entries_of(items.take(0)).len() == 0);
    let found = page::leaf_slots_at(w, 40, recs.len(), 40 + payload.len() as int)->Ok_0;
    let slots = load::moved(found, at * ps);
    let r = Read { page: at, slots, region };
    assert forall|rest: Seq<u64>, visited: Set<u64>|
        visited.disjoint(r.region) implies #[trigger] load::walk(
        image,
        meta,
        seq![r.page] + rest,
        visited,
    ) == page::joined(r.slots, load::walk(image, meta, rest, visited.union(r.region))) by {
        lemma_node_at(image, meta, LEAF, recs.len(), payload, at, visited);
        let todo = seq![at] + rest;
        assert(todo[0] == at);
        assert(todo.drop_first() =~= rest);
    }
    load::lemma_page_inside(at as int, meta.high_water as int, ps);
    assert forall|i: int| 0 <= i < recs.len() implies #[trigger] load::records_at(
        image,
        slots,
    )[i] == recs[i] by {
        let slot = found[i];
        assert(tree_laws::slot_holds(w, slot, recs[0 + i]));
        lemma_slots_bound(w, 40, recs.len(), 40 + payload.len() as int, i);
        lemma_moved_slice(image, w, at * ps, slot.0);
        lemma_moved_slice(image, w, at * ps, slot.1);
    }
    assert(load::records_at(image, slots) =~= recs);
    r
}

proof fn lemma_slots_bound(b: Seq<u8>, cursor: int, n: nat, end: int, i: int)
    requires
        0 <= cursor,
        end <= b.len(),
        page::leaf_slots_at(b, cursor, n, end) is Ok,
        0 <= i < page::leaf_slots_at(b, cursor, n, end)->Ok_0.len(),
    ensures
        page::leaf_slots_at(b, cursor, n, end)->Ok_0[i].0.within(b.len() as int),
        page::leaf_slots_at(b, cursor, n, end)->Ok_0[i].1.within(b.len() as int),
    decreases n,
{
    if n > 0 && i > 0 {
        let first = page::leaf_slot_at(b, cursor, end)->Ok_0;
        let next = first.1.offset + first.1.len;
        lemma_slots_bound(b, next, (n - 1) as nat, end, i - 1);
    }
}

/// A branch that was written reads as its children do, one after the other.
#[verifier::rlimit(40)]
#[verifier::spinoff_prover]
proof fn lemma_branch_node(
    image: Seq<u8>,
    meta: Meta,
    nodes: Seq<LevelNodeView>,
    reads: Seq<Read>,
    at: u64,
) -> (r: Read)
    requires
        roomy(image, meta),
        nodes.len() > 0,
        nodes.len() == reads.len(),
        forall|j: int| 0 <= j < nodes.len() ==> (#[trigger] nodes[j]).first_key.len() <= u32::MAX,
        forall|j: int|
            0 <= j < nodes.len() ==> (#[trigger] reads[j]).page == nodes[j].page && reads_as(
                image,
                meta,
                reads[j],
            ) && within(reads[j].region, 0, at as int),
        apart(reads),
        ({
            let payload = tree::entries_of(tree::branch_items(nodes));
            let ps = meta.page_size as int;
            &&& tree::node_fits(nodes.len(), payload.len() as int, ps)
            &&& bytes::stands_at(image, at * ps, tree::node_bytes(BRANCH, nodes.len(), payload, ps, at))
            &&& at + tree::span_of(payload.len() as int, ps) <= meta.high_water
        }),
        2 <= at,
    ensures
        r.page == at,
        reads_as(image, meta, r),
        r.slots == flat(reads),
        r.region == load::covered(
            at,
            tree::span_of(
                tree::entries_of(tree::branch_items(nodes)).len() as int,
                meta.page_size as int,
            ) as nat,
        ).union(regions(reads)),
{
    let ps = meta.page_size as int;
    let items = tree::branch_items(nodes);
    let payload = tree::entries_of(items);
    let w = tree::node_bytes(BRANCH, nodes.len(), payload, ps, at);
    let span = tree::span_of(payload.len() as int, ps) as nat;
    let own = load::covered(at, span);
    lemma_node_at(image, meta, BRANCH, nodes.len(), payload, at, Set::empty());
    tree_laws::lemma_branch_slots_parse(w, nodes, 0);
    assert(items.take(0) =~= Seq::<ItemView>::empty());
    assert(tree::entries_of(items.take(0)).len() == 0);
    let found = page::branch_slots_at(w, 40, nodes.len(), 40 + payload.len() as int)->Ok_0;
    assert(load::children(found) =~= pages_of(reads)) by {
        assert forall|j: int| 0 <= j < nodes.len() implies load::children(found)[j] == pages_of(
            reads,
        )[j] by {
            assert(found[j].1 == nodes[0 + j].page);
            assert(reads[j].page == nodes[j].page);
        }
    }
    let r = Read { page: at, slots: flat(reads), region: own.union(regions(reads)) };
    assert forall|rest: Seq<u64>, visited: Set<u64>|
        visited.disjoint(r.region) implies #[trigger] load::walk(
        image,
        meta,
        seq![r.page] + rest,
        visited,
    ) == page::joined(r.slots, load::walk(image, meta, rest, visited.union(r.region))) by {
        assert(visited.disjoint(own)) by {
            assert forall|p: u64| !(visited.contains(p) && own.contains(p)) by {
                assert(own.contains(p) ==> r.region.contains(p));
            }
        }
        lemma_node_at(image, meta, BRANCH, nodes.len(), payload, at, visited);
        let todo = seq![at] + rest;
        assert(todo[0] == at);
        assert(todo.drop_first() =~= rest);
        let seen = visited.union(own);
        assert forall|i: int| 0 <= i < reads.len() implies seen.disjoint(
            (#[trigger] reads[i]).region,
        ) by {
            assert forall|p: u64| !(seen.contains(p) && reads[i].region.contains(p)) by {
                if reads[i].region.contains(p) {
                    lemma_regions(reads, p);
                    assert(r.region.contains(p));
                }
            }
        }
        lemma_run(image, meta, reads, rest, seen);
        assert(seen.union(regions(reads)) =~= visited.union(r.region));
    }
    r
}

/// Whether the pages of a level or a tree stand in a file.
pub open spec fn holds_pages(image: Seq<u8>, page_size: int, pages: Seq<(u64, Seq<u8>)>) -> bool {
    forall|i: int|
        0 <= i < pages.len() ==> bytes::stands_at(
            image,
            (#[trigger] pages[i]).0 * page_size,
            pages[i].1,
        )
}

proof fn lemma_packed_grows(
    kind: u8,
    items: Seq<ItemView>,
    from: int,
    page_size: int,
    next: u64,
)
    requires
        0 <= from,
        page_size >= 1024,
        tree::packed(kind, items, from, page_size, next) is Some,
    ensures
        next <= tree::packed(kind, items, from, page_size, next)->0.next,
    decreases items.len() - from,
{
    if from < items.len() {
        let end = tree::group_end(items, from, page_size);
        tree::lemma_fit_end(items, from + 1, NODE_HEADER + items[from].entry.len(), page_size);
        let payload = tree::entries_of(items.subrange(from, end));
        let after = next + tree::span_of(payload.len() as int, page_size);
        tree::lemma_span_covers(payload.len() as int, page_size);
        lemma_packed_grows(kind, items, end, page_size, after as u64);
    }
}

/// Whether the nodes of a level read, within the pages from `lo` to `hi`.
spec fn level_reads(
    image: Seq<u8>,
    meta: Meta,
    nodes: Seq<LevelNodeView>,
    reads: Seq<Read>,
    lo: int,
    hi: int,
) -> bool {
    &&& reads.len() == nodes.len()
    &&& forall|i: int|
        0 <= i < reads.len() ==> (#[trigger] reads[i]).page == nodes[i].page && reads_as(
            image,
            meta,
            reads[i],
        ) && within(reads[i].region, lo, hi)
    &&& apart(reads)
}

proof fn lemma_records_add(image: Seq<u8>, a: Seq<(Slice, Slice)>, b: Seq<(Slice, Slice)>)
    ensures
        load::records_at(image, a + b) == load::records_at(image, a) + load::records_at(image, b),
{
    assert(load::records_at(image, a + b) =~= load::records_at(image, a) + load::records_at(
        image,
        b,
    ));
}

/// The leaves of a packed tree read as its records.
proof fn lemma_leaf_level(
    image: Seq<u8>,
    meta: Meta,
    recs: Seq<RecordView>,
    from: int,
    next: u64,
) -> (reads: Seq<Read>)
    requires
        roomy(image, meta),
        0 <= from <= recs.len(),
        forall|j: int| 0 <= j < recs.len() ==> (#[trigger] recs[j]).key.len() <= u32::MAX,
        2 <= next,
        tree::packed(LEAF, tree::leaf_items(recs), from, meta.page_size as int, next) is Some,
        ({
            let level = tree::packed(
                LEAF,
                tree::leaf_items(recs),
                from,
                meta.page_size as int,
                next,
            )->0;
            holds_pages(image, meta.page_size as int, level.pages) && level.next <= meta.high_water
        }),
    ensures
        ({
            let level = tree::packed(
                LEAF,
                tree::leaf_items(recs),
                from,
                meta.page_size as int,
                next,
            )->0;
            level_reads(image, meta, level.nodes, reads, next as int, level.next as int)
        }),
        load::records_at(image, flat(reads)) == recs.skip(from),
    decreases recs.len() - from,
{
    let ps = meta.page_size as int;
    let items = tree::leaf_items(recs);
    if from >= recs.len() {
        let reads: Seq<Read> = Seq::empty();
        assert(load::records_at(image, flat(reads)) =~= recs.skip(from));
        reads
    } else {
        let end = tree::group_end(items, from, ps);
        tree::lemma_fit_end(items, from + 1, NODE_HEADER + items[from].entry.len(), ps);
        let group = recs.subrange(from, end);
        assert(items.subrange(from, end) =~= tree::leaf_items(group));
        let payload = tree::entries_of(tree::leaf_items(group));
        let span = tree::span_of(payload.len() as int, ps);
        tree::lemma_span_covers(payload.len() as int, ps);
        let after = (next + span) as u64;
        let level = tree::packed(LEAF, items, from, ps, next)->0;
        let rest = tree::packed(LEAF, items, end, ps, after)->0;
        lemma_packed_grows(LEAF, items, end, ps, after);
        assert(level.pages[0] == (
            next,
            tree::node_bytes(LEAF, group.len(), payload, ps, next),
        ));
        let first = lemma_leaf_node(image, meta, group, next);
        assert forall|i: int| 0 <= i < rest.pages.len() implies bytes::stands_at(
            image,
            (#[trigger] rest.pages[i]).0 * ps,
            rest.pages[i].1,
        ) by {
            assert(level.pages[i + 1] == rest.pages[i]);
        }
        let tail = lemma_leaf_level(image, meta, recs, end, after);
        let reads = seq![first] + tail;
        assert forall|i: int| 0 <= i < reads.len() implies (#[trigger] reads[i]).page
            == level.nodes[i].page && reads_as(image, meta, reads[i]) && within(
            reads[i].region,
            next as int,
            level.next as int,
        ) by {
            if i > 0 {
                assert(reads[i] == tail[i - 1]);
                assert(level.nodes[i] == rest.nodes[i - 1]);
            }
        }
        assert forall|i: int, j: int| 0 <= i < j < reads.len() implies (
        #[trigger] reads[i]).region.disjoint((#[trigger] reads[j]).region) by {
            assert(reads[j] == tail[j - 1]);
            if i > 0 {
                assert(reads[i] == tail[i - 1]);
            }
        }
        assert(reads.drop_first() =~= tail);
        assert(flat(reads) == first.slots + flat(tail));
        lemma_records_add(image, first.slots, flat(tail));
        assert(load::records_at(image, flat(reads)) =~= recs.skip(from));
        reads
    }
}

/// A level of branches over a level that reads, reads the same.
#[verifier::rlimit(30)]
#[verifier::spinoff_prover]
proof fn lemma_branch_level(
    image: Seq<u8>,
    meta: Meta,
    nodes: Seq<LevelNodeView>,
    reads: Seq<Read>,
    lo: int,
    hi: int,
    from: int,
    next: u64,
) -> (up: Seq<Read>)
    requires
        roomy(image, meta),
        0 <= from <= nodes.len(),
        0 <= lo <= hi <= next,
        level_reads(image, meta, nodes, reads, lo, hi),
        forall|j: int| 0 <= j < nodes.len() ==> (#[trigger] nodes[j]).first_key.len() <= u32::MAX,
        2 <= next,
        tree::packed(BRANCH, tree::branch_items(nodes), from, meta.page_size as int, next) is Some,
        ({
            let level = tree::packed(
                BRANCH,
                tree::branch_items(nodes),
                from,
                meta.page_size as int,
                next,
            )->0;
            holds_pages(image, meta.page_size as int, level.pages) && level.next <= meta.high_water
        }),
    ensures
        ({
            let level = tree::packed(
                BRANCH,
                tree::branch_items(nodes),
                from,
                meta.page_size as int,
                next,
            )->0;
            &&& level_reads(image, meta, level.nodes, up, lo, level.next as int)
            &&& forall|i: int, p: u64|
                0 <= i < up.len() && #[trigger] up[i].region.contains(p) ==> next <= p < level.next
                    || exists|k: int|
                    from <= k < reads.len() && (#[trigger] reads[k]).region.contains(p)
        }),
        flat(up) == flat(reads.skip(from)),
    decreases nodes.len() - from,
{
    let ps = meta.page_size as int;
    let items = tree::branch_items(nodes);
    let level = tree::packed(BRANCH, items, from, ps, next)->0;
    if from >= nodes.len() {
        assert(reads.skip(from) =~= Seq::<Read>::empty());
        Seq::empty()
    } else {
        let end = tree::group_end(items, from, ps);
        tree::lemma_fit_end(items, from + 1, NODE_HEADER + items[from].entry.len(), ps);
        let group = nodes.subrange(from, end);
        let below = reads.subrange(from, end);
        assert(items.subrange(from, end) =~= tree::branch_items(group));
        let payload = tree::entries_of(tree::branch_items(group));
        let span = tree::span_of(payload.len() as int, ps);
        tree::lemma_span_covers(payload.len() as int, ps);
        let after = (next + span) as u64;
        let rest = tree::packed(BRANCH, items, end, ps, after)->0;
        lemma_packed_grows(BRANCH, items, end, ps, after);
        assert(level.pages[0] == (
            next,
            tree::node_bytes(BRANCH, group.len(), payload, ps, next),
        ));
        assert forall|j: int| 0 <= j < group.len() implies (#[trigger] below[j]).page
            == group[j].page && reads_as(image, meta, below[j]) && within(
            below[j].region,
            0,
            next as int,
        ) by {
            assert(below[j] == reads[from + j]);
        }
        assert forall|i: int, j: int| 0 <= i < j < below.len() implies (
        #[trigger] below[i]).region.disjoint((#[trigger] below[j]).region) by {
            assert(reads[from + i].region.disjoint(reads[from + j].region));
        }
        let first = lemma_branch_node(image, meta, group, below, next);
        assert forall|i: int| 0 <= i < rest.pages.len() implies bytes::stands_at(
            image,
            (#[trigger] rest.pages[i]).0 * ps,
            rest.pages[i].1,
        ) by {
            assert(level.pages[i + 1] == rest.pages[i]);
        }
        let tail = lemma_branch_level(image, meta, nodes, reads, lo, hi, end, after);
        let up = seq![first] + tail;
        assert forall|p: u64| #[trigger] first.region.contains(p) implies (next <= p < after
            || exists|k: int| from <= k < end && (#[trigger] reads[k]).region.contains(p)) by {
            lemma_regions(below, p);
            if regions(below).contains(p) {
                let k = choose|k: int|
                    0 <= k < below.len() && (#[trigger] below[k]).region.contains(p);
                assert(reads[from + k].region.contains(p));
            }
        }
        assert forall|i: int| 0 <= i < up.len() implies (#[trigger] up[i]).page
            == level.nodes[i].page && reads_as(image, meta, up[i]) && within(
            up[i].region,
            lo,
            level.next as int,
        ) by {
            if i > 0 {
                assert(up[i] == tail[i - 1]);
                assert(level.nodes[i] == rest.nodes[i - 1]);
            } else {
                lemma_first_within(first, reads, from, end, lo, hi, next as int, after as int);
            }
        }
        assert forall|i: int, j: int| 0 <= i < j < up.len() implies (
        #[trigger] up[i]).region.disjoint((#[trigger] up[j]).region) by {
            assert(up[j] == tail[j - 1]);
            if i > 0 {
                assert(up[i] == tail[i - 1]);
            } else {
                assert forall|p: u64| !(first.region.contains(p) && tail[j
                    - 1].region.contains(p)) by {
                    if first.region.contains(p) && tail[j - 1].region.contains(p) {
                        if exists|k: int|
                            from <= k < end && (#[trigger] reads[k]).region.contains(p) {
                            let k = choose|k: int|
                                from <= k < end && (#[trigger] reads[k]).region.contains(p);
                            assert(within(reads[k].region, lo, hi));
                            if exists|q: int|
                                end <= q < reads.len() && (#[trigger] reads[q]).region.contains(
                                    p,
                                ) {
                                let q = choose|q: int|
                                    end <= q < reads.len() && (
                                    #[trigger] reads[q]).region.contains(p);
                                assert(reads[k].region.disjoint(reads[q].region));
                            }
                        } else {
                            assert(next <= p < after);
                            if exists|q: int|
                                end <= q < reads.len() && (#[trigger] reads[q]).region.contains(
                                    p,
                                ) {
                                let q = choose|q: int|
                                    end <= q < reads.len() && (
                                    #[trigger] reads[q]).region.contains(p);
                                assert(within(reads[q].region, lo, hi));
                            }
                        }
                    }
                }
            }
        }
        assert forall|i: int, p: u64|
            0 <= i < up.len() && #[trigger] up[i].region.contains(p) implies next <= p < level.next
            || exists|k: int|
            from <= k < reads.len() && (#[trigger] reads[k]).region.contains(p) by {
            if i > 0 {
                assert(tail[i - 1].region.contains(p));
                if !(after <= p < rest.next) {
                    let k = choose|k: int|
                        end <= k < reads.len() && (#[trigger] reads[k]).region.contains(p);
                    assert(reads[k].region.contains(p));
                }
            } else {
                assert(first.region.contains(p));
            }
        }
        assert(up.drop_first() =~= tail);
        assert(reads.skip(from) =~= below + reads.skip(end));
        lemma_flat_add(below, reads.skip(end));
        up
    }
}

proof fn lemma_first_within(
    first: Read,
    reads: Seq<Read>,
    from: int,
    end: int,
    lo: int,
    hi: int,
    next: int,
    after: int,
)
    requires
        0 <= from <= end <= reads.len(),
        forall|i: int| 0 <= i < reads.len() ==> within((#[trigger] reads[i]).region, lo, hi),
        forall|p: u64| #[trigger]
            first.region.contains(p) ==> next <= p < after || exists|k: int|
                from <= k < end && (#[trigger] reads[k]).region.contains(p),
        lo <= hi <= next <= after,
    ensures
        within(first.region, lo, after),
{
    assert forall|p: u64| #[trigger] first.region.contains(p) implies lo <= p < after by {
        if !(next <= p < after) {
            let k = choose|k: int| from <= k < end && (#[trigger] reads[k]).region.contains(p);
            assert(within(reads[k].region, lo, hi));
        }
    }
}

proof fn lemma_packed_keys_fit(
    kind: u8,
    items: Seq<ItemView>,
    from: int,
    page_size: int,
    next: u64,
)
    requires
        0 <= from,
        tree::packed(kind, items, from, page_size, next) is Some,
        forall|i: int| 0 <= i < items.len() ==> (#[trigger] items[i]).key.len() <= u32::MAX,
    ensures
        ({
            let level = tree::packed(kind, items, from, page_size, next)->0;
            &&& forall|i: int|
                0 <= i < level.nodes.len() ==> (#[trigger] level.nodes[i]).first_key.len()
                    <= u32::MAX
            &&& from < items.len() ==> level.nodes.len() > 0
        }),
{
    tree::lemma_packed_keys(kind, items, from, page_size, next, u32::MAX as nat);
}

/// The levels above one that reads lead to a root that reads the same.
proof fn lemma_upper_levels(
    image: Seq<u8>,
    meta: Meta,
    nodes: Seq<LevelNodeView>,
    reads: Seq<Read>,
    lo: int,
    next: u64,
)
    requires
        roomy(image, meta),
        nodes.len() > 0,
        0 <= lo <= next,
        2 <= next,
        level_reads(image, meta, nodes, reads, lo, next as int),
        forall|j: int| 0 <= j < nodes.len() ==> (#[trigger] nodes[j]).first_key.len() <= u32::MAX,
        tree::upper_levels(nodes, meta.page_size as int, next) is Some,
        ({
            let top = tree::upper_levels(nodes, meta.page_size as int, next)->0;
            holds_pages(image, meta.page_size as int, top.pages) && top.high_water
                <= meta.high_water
        }),
    ensures
        ({
            let top = tree::upper_levels(nodes, meta.page_size as int, next)->0;
            load::walk(image, meta, seq![top.root], Set::empty()) == Ok::<
                Seq<(Slice, Slice)>,
                Error,
            >(flat(reads))
        }),
    decreases nodes.len(),
{
    let ps = meta.page_size as int;
    let top = tree::upper_levels(nodes, ps, next)->0;
    if nodes.len() == 1 {
        let r = reads[0];
        let none = Seq::<u64>::empty();
        assert(reads_as(image, meta, r));
        assert(Set::<u64>::empty().disjoint(r.region));
        assert(load::walk(image, meta, seq![r.page] + none, Set::empty()) == page::joined(
            r.slots,
            load::walk(image, meta, none, Set::<u64>::empty().union(r.region)),
        ));
        assert(seq![r.page] + none =~= seq![top.root]);
        assert(reads.drop_first() =~= Seq::<Read>::empty());
        assert(flat(Seq::<Read>::empty()) == Seq::<(Slice, Slice)>::empty());
        assert(flat(reads) == r.slots + flat(reads.drop_first()));
        assert(r.slots + Seq::<(Slice, Slice)>::empty() =~= flat(reads));
    } else {
        let items = tree::branch_items(nodes);
        let up = tree::packed(BRANCH, items, 0, ps, next)->0;
        let above = tree::upper_levels(up.nodes, ps, up.next)->0;
        assert forall|i: int| 0 <= i < items.len() implies (#[trigger] items[i]).key.len()
            <= u32::MAX by {
            assert(items[i] == tree::branch_item(nodes[i]));
        }
        lemma_packed_keys_fit(BRANCH, items, 0, ps, next);
        lemma_packed_grows(BRANCH, items, 0, ps, next);
        lemma_upper_grows(up.nodes, ps, up.next);
        assert forall|i: int| 0 <= i < up.pages.len() implies bytes::stands_at(
            image,
            (#[trigger] up.pages[i]).0 * ps,
            up.pages[i].1,
        ) by {
            assert(top.pages[i] == up.pages[i]);
        }
        assert forall|i: int| 0 <= i < above.pages.len() implies bytes::stands_at(
            image,
            (#[trigger] above.pages[i]).0 * ps,
            above.pages[i].1,
        ) by {
            assert(top.pages[up.pages.len() + i] == above.pages[i]);
        }
        let more = lemma_branch_level(image, meta, nodes, reads, lo, next as int, 0, next);
        assert(reads.skip(0) =~= reads);
        lemma_upper_levels(image, meta, up.nodes, more, lo, up.next);
    }
}

proof fn lemma_upper_grows(nodes: Seq<LevelNodeView>, page_size: int, next: u64)
    requires
        page_size >= 1024,
        tree::upper_levels(nodes, page_size, next) is Some,
    ensures
        next <= tree::upper_levels(nodes, page_size, next)->0.high_water,
    decreases nodes.len(),
{
    if nodes.len() > 1 {
        let items = tree::branch_items(nodes);
        let up = tree::packed(BRANCH, items, 0, page_size, next)->0;
        lemma_packed_grows(BRANCH, items, 0, page_size, next);
        lemma_upper_grows(up.nodes, page_size, up.next);
    }
}

/// Walking the tree that some sorted records were packed into finds those
/// records, in order.
pub proof fn law_walk_finds_packed_records(
    image: Seq<u8>,
    meta: Meta,
    sorted: Seq<RecordView>,
    start: u64,
)
    requires
        meta.page_size >= 1024,
        meta.high_water * meta.page_size <= image.len() <= usize::MAX,
        2 <= start,
        tree::tree_of(sorted, meta.page_size as int, start) is Some,
        ({
            let t = tree::tree_of(sorted, meta.page_size as int, start)->0;
            &&& holds_pages(image, meta.page_size as int, t.pages)
            &&& meta.root == t.root
            &&& meta.high_water == t.high_water
        }),
    ensures
        load::walk(image, meta, seq![meta.root], Set::empty()) is Ok,
        load::records_at(
            image,
            load::walk(image, meta, seq![meta.root], Set::empty())->Ok_0,
        ) == tree::filled(sorted),
{
    let ps = meta.page_size as int;
    let recs = tree::filled(sorted);
    let items = tree::leaf_items(recs);
    let t = tree::tree_of(sorted, ps, start)->0;
    let level = tree::packed(LEAF, items, 0, ps, start)->0;
    let top = tree::upper_levels(level.nodes, ps, level.next)->0;
    assert forall|i: int| 0 <= i < items.len() implies (#[trigger] items[i]).key.len()
        <= u32::MAX by {
        assert(items[i] == tree::leaf_item(recs[i]));
    }
    lemma_packed_keys_fit(LEAF, items, 0, ps, start);
    lemma_packed_grows(LEAF, items, 0, ps, start);
    lemma_upper_grows(level.nodes, ps, level.next);
    assert forall|i: int| 0 <= i < level.pages.len() implies bytes::stands_at(
        image,
        (#[trigger] level.pages[i]).0 * ps,
        level.pages[i].1,
    ) by {
        assert(t.pages[i] == level.pages[i]);
    }
    assert forall|i: int| 0 <= i < top.pages.len() implies bytes::stands_at(
        image,
        (#[trigger] top.pages[i]).0 * ps,
        top.pages[i].1,
    ) by {
        assert(t.pages[level.pages.len() + i] == top.pages[i]);
    }
    let reads = lemma_leaf_level(image, meta, recs, 0, start);
    assert(recs.skip(0) =~= recs);
    lemma_upper_levels(image, meta, level.nodes, reads, start as int, level.next);
}

/// Whether one of the first `n` records has this key.
spec fn among(recs: Seq<RecordView>, n: int, key: Seq<u8>) -> bool {
    exists|j: int| 0 <= j < n && (#[trigger] recs[j]).key == key
}

/// The part of a database whose records are among the first `n`.
spec fn part(m: Model, recs: Seq<RecordView>, n: int) -> Model {
    Map::new(
        |at: Seq<u8>| m.contains_key(at) && among(recs, n, state::bucket_key(at)),
        |at: Seq<u8>|
            BucketModel {
                next: m[at].next,
                entries: Map::new(
                    |key: Seq<u8>|
                        m[at].entries.contains_key(key) && among(
                            recs,
                            n,
                            state::entry_key(at, key),
                        ),
                    |key: Seq<u8>| m[at].entries[key],
                ),
            },
    )
}

proof fn lemma_among_step(recs: Seq<RecordView>, n: int, key: Seq<u8>)
    requires
        0 <= n < recs.len(),
    ensures
        among(recs, n + 1, key) <==> among(recs, n, key) || recs[n].key == key,
{
    if among(recs, n, key) {
        let j = choose|j: int| 0 <= j < n && (#[trigger] recs[j]).key == key;
        assert(recs[j].key == key);
    }
    if among(recs, n + 1, key) {
        let j = choose|j: int| 0 <= j < n + 1 && (#[trigger] recs[j]).key == key;
        assert(recs[j].key == key);
    }
}

proof fn lemma_keys_differ(at: Seq<u8>, other: Seq<u8>, key: Seq<u8>)
    ensures
        state::bucket_key(at) != state::entry_key(other, key),
        bytes::lex_lt(state::bucket_key(at), state::entry_key(other, key)),
{
    assert(state::bucket_key(at)[0] == 0);
    assert(state::entry_key(other, key)[0] == 1);
}

proof fn lemma_bucket_key_injective(at: Seq<u8>, other: Seq<u8>)
    requires
        state::bucket_key(at) == state::bucket_key(other),
    ensures
        at == other,
{
    assert(state::bucket_key(at).skip(1) =~= at);
    assert(state::bucket_key(other).skip(1) =~= other);
}

proof fn lemma_bucket_record_loads(at: Seq<u8>, next: u64, alone: bool)
    ensures
        load::loaded_of(state::bucket_record(at, next), alone) == Ok::<load::Loaded, Error>(
            load::Loaded::Bucket { at, next },
        ),
{
    let r = state::bucket_record(at, next);
    bytes::lemma_pow256_widths();
    bytes::lemma_le_round_trip(next as nat, 8);
    assert(r.value.subrange(0, 8) =~= r.value);
    assert(r.key.skip(1) =~= at);
    assert(r.key[0] == 0);
}

proof fn lemma_entry_record_loads(at: Seq<u8>, key: Seq<u8>, value: Seq<u8>, alone: bool)
    requires
        at.len() <= u32::MAX,
    ensures
        load::loaded_of(state::entry_record(at, key, value), alone) == Ok::<load::Loaded, Error>(
            load::Loaded::Entry { at, key, value },
        ),
{
    let r = state::entry_record(at, key, value);
    bytes::lemma_pow256_widths();
    bytes::lemma_le_of_len(at.len(), 4);
    assert(r.key.subrange(1, 5) =~= bytes::le_of(at.len(), 4));
    bytes::lemma_le_field(r.key, 1, at.len(), 4);
    let end = 5 + at.len() as int;
    assert(r.key.subrange(5, end) =~= at);
    assert(r.key.skip(end) =~= key);
    assert(r.key[0] == 1);
}

/// Whether a database can be kept in a file: buckets have their parents, no
/// key is also the name of a bucket, and paths fit their records.
pub open spec fn storable(m: Model) -> bool {
    load::parents_present(m) && load::names_apart(m) && state::paths_fit(m)
}

/// Filing the records of a database one after the other.
#[verifier::rlimit(30)]
#[verifier::spinoff_prover]
proof fn lemma_part_grows(m: Model, recs: Seq<RecordView>, n: int)
    requires
        storable(m),
        state::records_match(recs, m),
        tree::increasing(recs),
        0 <= n <= recs.len(),
    ensures
        load::checked(recs, n) == Ok::<(), Error>(()),
        load::placed(recs, n) == Ok::<Model, Error>(part(m, recs, n)),
    decreases n,
{
    if n == 0 {
        assert(part(m, recs, 0) =~= Map::<Seq<u8>, BucketModel>::empty());
    } else {
        lemma_part_grows(m, recs, n - 1);
        let r = recs[n - 1];
        let before = part(m, recs, n - 1);
        let after = part(m, recs, n);
        if n >= 2 {
            assert(bytes::lex_lt(recs[n - 2].key, recs[n - 1].key));
        }
        assert(state::record_in(r, m));
        if exists|at: Seq<u8>|
            m.contains_key(at) && r == #[trigger] state::bucket_record(at, m[at].next) {
            let at = choose|at: Seq<u8>|
                m.contains_key(at) && r == #[trigger] state::bucket_record(at, m[at].next);
            lemma_bucket_record_loads(at, m[at].next, recs.len() == 1);
            assert(!among(recs, n - 1, state::bucket_key(at))) by {
                if among(recs, n - 1, state::bucket_key(at)) {
                    let j = choose|j: int|
                        0 <= j < n - 1 && (#[trigger] recs[j]).key == state::bucket_key(at);
                    assert(bytes::lex_lt(recs[j].key, recs[n - 1].key));
                    bytes::lemma_lex_irreflexive(r.key);
                }
            }
            assert(path::parent_of(at) is Some);
            assert forall|p: Seq<u8>| #[trigger] after.contains_key(p) == before.insert(
                at,
                BucketModel { next: m[at].next, entries: Map::empty() },
            ).contains_key(p) by {
                lemma_among_step(recs, n - 1, state::bucket_key(p));
                if r.key == state::bucket_key(p) {
                    lemma_bucket_key_injective(at, p);
                }
            }
            assert forall|p: Seq<u8>| #[trigger] after.contains_key(p) implies after[p]
                == before.insert(
                at,
                BucketModel { next: m[at].next, entries: Map::empty() },
            )[p] by {
                assert forall|key: Seq<u8>|
                    among(recs, n, state::entry_key(p, key)) == #[trigger] among(
                        recs,
                        n - 1,
                        state::entry_key(p, key),
                    ) by {
                    lemma_among_step(recs, n - 1, state::entry_key(p, key));
                    lemma_keys_differ(at, p, key);
                }
                if p == at {
                    assert forall|key: Seq<u8>| !(#[trigger] after[at].entries.contains_key(
                        key,
                    )) by {
                        if after[at].entries.contains_key(key) {
                            assert(among(recs, n - 1, state::entry_key(at, key)));
                            let j = choose|j: int|
                                0 <= j < n - 1 && (#[trigger] recs[j]).key == state::entry_key(
                                    at,
                                    key,
                                );
                            assert(bytes::lex_lt(recs[j].key, recs[n - 1].key));
                            lemma_keys_differ(at, at, key);
                            bytes::lemma_lex_total(recs[j].key, recs[n - 1].key);
                        }
                    }
                    assert(after[at].entries =~= Map::<Seq<u8>, Seq<u8>>::empty());
                } else {
                    assert(after[p].entries =~= before[p].entries);
                }
            }
            assert(after =~= before.insert(
                at,
                BucketModel { next: m[at].next, entries: Map::empty() },
            ));
        } else {
            let (at, key) = choose|at: Seq<u8>, key: Seq<u8>|
                m.contains_key(at) && m[at].entries.contains_key(key) && r
                    == #[trigger] state::entry_record(at, key, m[at].entries[key]);
            let value = m[at].entries[key];
            assert(at.len() <= u32::MAX);
            lemma_entry_record_loads(at, key, value, recs.len() == 1);
            assert(recs.contains(state::bucket_record(at, m[at].next)));
            let b = choose|b: int|
                0 <= b < recs.len() && recs[b] == state::bucket_record(at, m[at].next);
            lemma_keys_differ(at, at, key);
            assert(b < n - 1) by {
                if b >= n {
                    assert(bytes::lex_lt(recs[n - 1].key, recs[b].key));
                    bytes::lemma_lex_total(recs[n - 1].key, recs[b].key);
                }
            }
            assert(recs[b].key == state::bucket_key(at));
            assert(before.contains_key(at));
            assert(!among(recs, n - 1, state::entry_key(at, key))) by {
                if among(recs, n - 1, state::entry_key(at, key)) {
                    let j = choose|j: int|
                        0 <= j < n - 1 && (#[trigger] recs[j]).key == state::entry_key(at, key);
                    assert(bytes::lex_lt(recs[j].key, recs[n - 1].key));
                    bytes::lemma_lex_irreflexive(r.key);
                }
            }
            let grown = BucketModel {
                entries: before[at].entries.insert(key, value),
                ..before[at]
            };
            assert forall|p: Seq<u8>| #[trigger] after.contains_key(p) == before.insert(
                at,
                grown,
            ).contains_key(p) by {
                lemma_among_step(recs, n - 1, state::bucket_key(p));
                lemma_keys_differ(p, at, key);
            }
            assert forall|p: Seq<u8>| #[trigger] after.contains_key(p) implies after[p]
                == before.insert(at, grown)[p] by {
                assert forall|k: Seq<u8>|
                    m[p].entries.contains_key(k) implies #[trigger] among(
                    recs,
                    n,
                    state::entry_key(p, k),
                ) == (among(recs, n - 1, state::entry_key(p, k)) || (p == at && k == key)) by {
                    lemma_among_step(recs, n - 1, state::entry_key(p, k));
                    assert(p.len() <= u32::MAX);
                    if r.key == state::entry_key(p, k) {
                        state::lemma_entry_key_injective(at, key, p, k);
                    }
                }
                if p == at {
                    assert(after[at].entries =~= grown.entries);
                } else {
                    assert(after[p].entries =~= before[p].entries);
                }
            }
            assert(after =~= before.insert(at, grown));
        }
    }
}

/// The records of a database, in order, stand for that database.
pub proof fn law_records_stand_for_database(m: Model, recs: Seq<RecordView>)
    requires
        storable(m),
        state::records_match(recs, m),
        tree::increasing(recs),
    ensures
        load::model_of(tree::filled(recs)) == Ok::<Model, Error>(m),
{
    if recs.len() == 0 {
        let one = tree::filled(recs);
        assert(load::checked(one, 0) == Ok::<(), Error>(()));
        assert(load::placed(one, 0) == Ok::<Model, Error>(Map::empty()));
        assert(load::checked(one, 1) == Ok::<(), Error>(()));
        assert(load::placed(one, 1) == Ok::<Model, Error>(Map::empty()));
        assert forall|at: Seq<u8>| !(#[trigger] m.contains_key(at)) by {
            if m.contains_key(at) {
                assert(recs.contains(state::bucket_record(at, m[at].next)));
            }
        }
        assert(m =~= Map::<Seq<u8>, BucketModel>::empty());
    } else {
        let n = recs.len() as int;
        lemma_part_grows(m, recs, n);
        let whole = part(m, recs, n);
        assert forall|at: Seq<u8>| #[trigger] m.contains_key(at) implies whole.contains_key(at)
            && whole[at] == m[at] by {
            let b = choose|b: int|
                0 <= b < recs.len() && recs[b] == state::bucket_record(at, m[at].next);
            assert(recs.contains(state::bucket_record(at, m[at].next)));
            assert(recs[b].key == state::bucket_key(at));
            assert forall|key: Seq<u8>|
                m[at].entries.contains_key(key) implies #[trigger] among(
                recs,
                n,
                state::entry_key(at, key),
            ) by {
                assert(recs.contains(state::entry_record(at, key, m[at].entries[key])));
                let e = choose|e: int|
                    0 <= e < recs.len() && recs[e] == state::entry_record(
                        at,
                        key,
                        m[at].entries[key],
                    );
                assert(recs[e].key == state::entry_key(at, key));
            }
            assert(whole[at].entries =~= m[at].entries);
        }
        assert(whole =~= m);
    }
}

/// Records without a shared key are in strict key order once they are sorted.
proof fn lemma_sorted_increases(records: Seq<RecordView>)
    requires
        !tree::has_duplicate(records),
    ensures
        tree::increasing(tree::in_key_order(records)),
{
    let t = tree::in_key_order(records);
    tree::law_key_order_sorts(records);
    assert(records.no_duplicates()) by {
        assert forall|i: int, j: int|
            0 <= i < records.len() && 0 <= j < records.len() && i != j implies records[i]
            != records[j] by {
            if records[i] == records[j] {
                if i < j {
                    assert(records[i].key == records[j].key);
                } else {
                    assert(records[j].key == records[i].key);
                }
            }
        }
    }
    records.lemma_multiset_has_no_duplicates();
    t.lemma_multiset_has_no_duplicates_conv();
    assert forall|i: int, j: int| 0 <= i < j < t.len() implies bytes::lex_lt(
        (#[trigger] t[i]).key,
        (#[trigger] t[j]).key,
    ) by {
        assert(bytes::lex_le(t[i].key, t[j].key));
        if t[i].key == t[j].key {
            assert(t.contains(t[i]));
            assert(t.contains(t[j]));
            vstd::seq_lib::to_multiset_contains(t, t[i]);
            vstd::seq_lib::to_multiset_contains(records, t[i]);
            vstd::seq_lib::to_multiset_contains(t, t[j]);
            vstd::seq_lib::to_multiset_contains(records, t[j]);
            let a = choose|a: int| 0 <= a < records.len() && records[a] == t[i];
            let b = choose|b: int| 0 <= b < records.len() && records[b] == t[j];
            assert(t[i] != t[j]);
            if a < b {
                assert(records[a].key == records[b].key);
            } else {
                assert(records[b].key == records[a].key);
            }
        }
    }
}

proof fn lemma_sorted_matches(records: Seq<RecordView>, m: Model)
    requires
        state::records_match(records, m),
    ensures
        state::records_match(tree::in_key_order(records), m),
{
    let t = tree::in_key_order(records);
    tree::law_key_order_sorts(records);
    assert forall|r: RecordView| #[trigger] t.contains(r) == records.contains(r) by {
        vstd::seq_lib::to_multiset_contains(t, r);
        vstd::seq_lib::to_multiset_contains(records, r);
    }
    assert forall|i: int| 0 <= i < t.len() implies state::record_in(#[trigger] t[i], m) by {
        assert(t.contains(t[i]));
        let j = choose|j: int| 0 <= j < records.len() && records[j] == t[i];
        assert(state::record_in(records[j], m));
    }
    assert forall|at: Seq<u8>| #[trigger] m.contains_key(at) implies t.contains(
        state::bucket_record(at, m[at].next),
    ) by {
        assert(records.contains(state::bucket_record(at, m[at].next)));
    }
    assert forall|at: Seq<u8>, key: Seq<u8>|
        m.contains_key(at) && #[trigger] m[at].entries.contains_key(key) implies t.contains(
        state::entry_record(at, key, m[at].entries[key]),
    ) by {
        assert(records.contains(state::entry_record(at, key, m[at].entries[key])));
    }
}

/// Whether everything a plan writes stands in a file.
pub open spec fn carries(f: Seq<u8>, writes: Seq<(u64, Seq<u8>)>) -> bool {
    forall|i: int|
        0 <= i < writes.len() ==> bytes::stands_at(f, (#[trigger] writes[i]).0 as int, writes[i].1)
}

proof fn lemma_carries_pages(f: Seq<u8>, t: TreeView, page_size: int, start: int)
    requires
        page_size >= 0,
        tree::pages_between(t.pages, page_size, start, t.high_water as int),
        t.high_water * page_size <= u64::MAX,
        carries(f, commit::offsets(t.pages, page_size)),
    ensures
        holds_pages(f, page_size, t.pages),
{
    let w = commit::offsets(t.pages, page_size);
    assert forall|i: int| 0 <= i < t.pages.len() implies bytes::stands_at(
        f,
        (#[trigger] t.pages[i]).0 * page_size,
        t.pages[i].1,
    ) by {
        load::lemma_page_inside(t.pages[i].0 as int, t.high_water as int, page_size);
        assert(w[i] == ((t.pages[i].0 * page_size) as u64, t.pages[i].1));
    }
}

/// The meta page in a slot of a file.
pub open spec fn slot_of(f: Seq<u8>, slot: int) -> Seq<u8> {
    f.subrange(slot * load::PAGE_SIZE, (slot + 1) * load::PAGE_SIZE)
}

/// A meta page that stands in a slot reads back.
proof fn lemma_slot_reads(f: Seq<u8>, slot: int, meta: Meta)
    requires
        0 <= slot <= 1,
        meta.page_size == load::PAGE_SIZE,
        bytes::stands_at(f, slot * load::PAGE_SIZE, page::meta_bytes(meta)),
    ensures
        page::meta_of(slot_of(f, slot)) == Ok::<Meta, Error>(meta),
{
    commit::lemma_page_size_ok();
    page::law_meta_round_trip(meta);
    page::lemma_meta_len(meta);
}

/// The choice between the two slots.
proof fn lemma_selected(f: Seq<u8>)
    requires
        f.len() >= 2 * load::PAGE_SIZE,
    ensures
        load::selected_meta(f) == (match load::newer(
            page::meta_of(slot_of(f, 0)),
            page::meta_of(slot_of(f, 1)),
        ) {
            None => Err(Error::Corrupt("both meta pages are invalid")),
            Some(meta) => if meta.page_size != load::PAGE_SIZE {
                Err(Error::Corrupt("unsupported page size"))
            } else {
                Ok(meta)
            },
        }),
{
    let ps = load::PAGE_SIZE as int;
    assert(f.subrange(0, ps) =~= slot_of(f, 0));
    assert(f.subrange(ps, 2 * ps) =~= slot_of(f, 1));
}

/// A newer meta page in the other slot takes over.
proof fn lemma_select_new(image: Seq<u8>, f: Seq<u8>, before: Meta, new: Meta)
    requires
        image.len() >= 2 * load::PAGE_SIZE,
        f.len() >= 2 * load::PAGE_SIZE,
        load::selected_meta(image) == Ok::<Meta, Error>(before),
        new.txid == before.txid + 1,
        new.page_size == load::PAGE_SIZE,
        page::meta_of(slot_of(f, (new.txid % 2) as int)) == Ok::<Meta, Error>(new),
        slot_of(f, (before.txid % 2) as int) == slot_of(image, (before.txid % 2) as int),
    ensures
        load::selected_meta(f) == Ok::<Meta, Error>(new),
{
    lemma_selected(image);
    lemma_selected(f);
    if before.txid % 2 == 0 {
        assert(new.txid % 2 == 1);
    } else {
        assert(new.txid % 2 == 0);
    }
}

/// An older or a broken meta page in the other slot does not count, and the same
/// one, which a new file has there, makes no difference.
proof fn lemma_select_old(f: Seq<u8>, before: Meta)
    requires
        f.len() >= 2 * load::PAGE_SIZE,
        before.page_size == load::PAGE_SIZE,
        page::meta_of(slot_of(f, (before.txid % 2) as int)) == Ok::<Meta, Error>(before),
        match page::meta_of(slot_of(f, ((before.txid + 1) % 2) as int)) {
            Err(_) => true,
            Ok(other) => other.txid < before.txid || other == before,
        },
    ensures
        load::selected_meta(f) == Ok::<Meta, Error>(before),
{
    lemma_selected(f);
    if before.txid % 2 == 0 {
        assert((before.txid + 1) % 2 == 1);
    } else {
        assert((before.txid + 1) % 2 == 0);
    }
}

/// A new database file holds an empty database, also once it has grown.
pub proof fn law_new_file_is_empty(f: Seq<u8>, new: commit::Initial)
    requires
        tree::tree_of(Seq::empty(), load::PAGE_SIZE as int, 2) is Some,
        new.publishes(tree::tree_of(Seq::empty(), load::PAGE_SIZE as int, 2)->0),
        new.length <= f.len() <= usize::MAX,
        carries(f, tree::pages_view(new.writes@)),
        bytes::stands_at(f, 0, new.meta_page@),
        bytes::stands_at(f, load::PAGE_SIZE as int, new.meta_page@),
    ensures
        load::loaded(f) == Ok::<(Meta, Model), Error>((new.meta, Map::empty())),
{
    let ps = load::PAGE_SIZE as int;
    let none = Seq::<RecordView>::empty();
    let m = Map::<Seq<u8>, BucketModel>::empty();
    let t = tree::tree_of(none, ps, 2)->0;
    tree::law_empty_tree(2);
    tree::law_tree_stays_between(none, ps, 2);
    lemma_carries_pages(f, t, ps, 2);
    lemma_slot_reads(f, 0, new.meta);
    lemma_slot_reads(f, 1, new.meta);
    assert(f.subrange(0, ps) =~= slot_of(f, 0));
    assert(f.subrange(ps, 2 * ps) =~= slot_of(f, 1));
    assert(load::selected_meta(f) == Ok::<Meta, Error>(new.meta));
    law_walk_finds_packed_records(f, new.meta, none, 2);
    law_records_stand_for_database(m, none);
}

/// What a commit writes is what the next load of the file finds: the new meta
/// page, and the database that the transaction left.
pub proof fn law_commit_reads_back(
    image: Seq<u8>,
    before: Meta,
    was: Model,
    m: Model,
    c: commit::Commit,
    f: Seq<u8>,
)
    requires
        load::loaded(image) == Ok::<(Meta, Model), Error>((before, was)),
        storable(m),
        commit::packs(c, m, before),
        c.length <= f.len() <= usize::MAX,
        carries(f, tree::pages_view(c.writes@)),
        bytes::stands_at(f, c.meta_offset as int, c.meta_page@),
        slot_of(f, (before.txid % 2) as int) == slot_of(image, (before.txid % 2) as int),
    ensures
        load::loaded(f) == Ok::<(Meta, Model), Error>((c.meta, m)),
{
    let ps = load::PAGE_SIZE as int;
    let records = choose|records: Seq<RecordView>| #[trigger]
        state::records_match(records, m) && !tree::has_duplicate(records) && match tree::built(
            records,
            before.page_size as int,
            before.high_water,
        ) {
            Err(_) => false,
            Ok(t) => c.publishes(t, before),
        };
    assert(before.page_size == ps);
    lemma_root_inside(image, before);
    lemma_commit_loads(image, before, m, c, f, records);
}

proof fn lemma_root_inside(image: Seq<u8>, meta: Meta)
    requires
        load::walk(image, meta, seq![meta.root], Set::empty()) is Ok,
    ensures
        meta.high_water >= 2,
{
    let todo = seq![meta.root];
    assert(todo[0] == meta.root);
    assert(load::node_at(image, meta, meta.root, Set::empty()) is Ok);
}

proof fn lemma_commit_loads(
    image: Seq<u8>,
    before: Meta,
    m: Model,
    c: commit::Commit,
    f: Seq<u8>,
    records: Seq<RecordView>,
)
    requires
        before.page_size == load::PAGE_SIZE,
        before.high_water >= 2,
        image.len() >= 2 * load::PAGE_SIZE,
        load::selected_meta(image) == Ok::<Meta, Error>(before),
        storable(m),
        state::records_match(records, m),
        !tree::has_duplicate(records),
        tree::built(records, load::PAGE_SIZE as int, before.high_water) is Ok,
        c.publishes(
            tree::built(records, load::PAGE_SIZE as int, before.high_water)->Ok_0,
            before,
        ),
        c.length <= f.len() <= usize::MAX,
        carries(f, tree::pages_view(c.writes@)),
        bytes::stands_at(f, c.meta_offset as int, c.meta_page@),
        slot_of(f, (before.txid % 2) as int) == slot_of(image, (before.txid % 2) as int),
    ensures
        load::loaded(f) == Ok::<(Meta, Model), Error>((c.meta, m)),
{
    let ps = load::PAGE_SIZE as int;
    let sorted = tree::in_key_order(records);
    let t = tree::tree_of(sorted, ps, before.high_water)->0;
    tree::law_tree_stays_between(sorted, ps, before.high_water);
    lemma_carries_pages(f, t, ps, before.high_water as int);
    lemma_slot_reads(f, (c.meta.txid % 2) as int, c.meta);
    assert(f.len() >= 2 * ps) by {
        load::lemma_page_inside(1, t.high_water as int, ps);
    }
    lemma_select_new(image, f, before, c.meta);
    law_walk_finds_packed_records(f, c.meta, sorted, before.high_water);
    lemma_sorted_increases(records);
    lemma_sorted_matches(records, m);
    law_records_stand_for_database(m, sorted);
}

/// Whether two files have the same committed pages.
pub open spec fn same_pages(image: Seq<u8>, f: Seq<u8>, meta: Meta) -> bool {
    &&& meta.high_water * meta.page_size <= image.len()
    &&& meta.high_water * meta.page_size <= f.len()
    &&& forall|i: int|
        2 * meta.page_size <= i < meta.high_water * meta.page_size ==> #[trigger] f[i] == image[i]
}

proof fn lemma_node_local(s: Seq<u8>, t: Seq<u8>, page_size: nat)
    requires
        page::node_of(s, page_size) is Ok,
        page_size >= 1024,
        page::node_of(s, page_size)->Ok_0.block.len() <= t.len(),
        forall|i: int|
            0 <= i < page::node_of(s, page_size)->Ok_0.block.len() ==> #[trigger] t[i] == s[i],
    ensures
        page::node_of(t, page_size) == page::node_of(s, page_size),
{
    let n = page::node_of(s, page_size)->Ok_0;
    let total = n.block.len() as int;
    assert(total == n.span * page_size);
    assert(total >= 40);
    assert forall|i: int, j: int| 0 <= i <= j <= total implies #[trigger] t.subrange(i, j)
        == s.subrange(i, j) by {
        assert(t.subrange(i, j) =~= s.subrange(i, j));
    }
    assert(t.subrange(0, 8) == s.subrange(0, 8));
    assert(t.subrange(12, 16) == s.subrange(12, 16));
    assert(t.subrange(16, 20) == s.subrange(16, 20));
    assert(t.subrange(20, 24) == s.subrange(20, 24));
    assert(t.subrange(24, 32) == s.subrange(24, 32));
    assert(t.subrange(32, 40) == s.subrange(32, 40));
    let filled = 40 + n.payload_len as int;
    assert(t.subrange(40, filled) == s.subrange(40, filled));
    assert(t.take(total) =~= s.take(total));
    assert(t[8] == s[8]);
}

/// A walk that succeeds reads committed pages only.
proof fn lemma_walk_local(
    image: Seq<u8>,
    f: Seq<u8>,
    meta: Meta,
    todo: Seq<u64>,
    visited: Set<u64>,
)
    requires
        meta.page_size >= 1024,
        image.len() <= usize::MAX,
        f.len() <= usize::MAX,
        same_pages(image, f, meta),
        load::walk(image, meta, todo, visited) is Ok,
    ensures
        load::walk(f, meta, todo, visited) == load::walk(image, meta, todo, visited),
        forall|i: int|
            0 <= i < load::walk(image, meta, todo, visited)->Ok_0.len() ==> committed(
                meta,
                #[trigger] load::walk(image, meta, todo, visited)->Ok_0[i],
            ),
    decreases load::unvisited(visited, meta.high_water as int),
{
    if todo.len() > 0 {
        let at = todo[0];
        let rest = todo.drop_first();
        let ps = meta.page_size as int;
        let off = at * ps;
        let node = load::node_at(image, meta, at, visited)->Ok_0;
        let seen = visited.union(load::covered(at, node.span)).insert(at);
        load::lemma_unvisited(visited, seen, meta.high_water as int);
        assert(seen.contains(at));
        load::lemma_page_inside(at as int, meta.high_water as int, ps);
        assert(2 * ps <= off) by (nonlinear_arith)
            requires
                2 <= at,
                ps >= 0,
                off == at * ps,
        ;
        let s = image.skip(off);
        let t = f.skip(off);
        let total = node.block.len() as int;
        assert(off + total <= meta.high_water * ps) by (nonlinear_arith)
            requires
                total == node.span * ps,
                off == at * ps,
                at + node.span <= meta.high_water,
                ps >= 0,
        ;
        assert forall|i: int| 0 <= i < total implies #[trigger] t[i] == s[i] by {
            assert(f[off + i] == image[off + i]);
        }
        lemma_node_local(s, t, ps as nat);
        assert(load::node_at(f, meta, at, visited) == Ok::<NodeView, Error>(node));
        if node.kind == LEAF {
            lemma_walk_local(image, f, meta, rest, seen);
            let slots = node.leaf_slots()->Ok_0;
            let here = load::moved(slots, off);
            let tail = load::walk(image, meta, rest, seen)->Ok_0;
            let all = load::walk(image, meta, todo, visited)->Ok_0;
            assert(all == here + tail);
            assert forall|i: int| 0 <= i < all.len() implies committed(meta, #[trigger] all[i]) by {
                if i < here.len() {
                    lemma_slots_bound(node.block, 40, node.count, node.end(), i);
                } else {
                    assert(all[i] == tail[i - here.len()]);
                }
            }
        } else {
            let kids = load::children(node.branch_slots()->Ok_0);
            lemma_walk_local(image, f, meta, kids + rest, seen);
        }
    }
}

/// Whether a record stands in the committed pages.
spec fn committed(meta: Meta, slot: (Slice, Slice)) -> bool {
    &&& 2 * meta.page_size <= slot.0.offset && slot.0.offset + slot.0.len <= meta.high_water
        * meta.page_size
    &&& 2 * meta.page_size <= slot.1.offset && slot.1.offset + slot.1.len <= meta.high_water
        * meta.page_size
}

/// Until the new meta page is whole, a file holds what it held before: whatever
/// else a commit has written stands behind the committed pages, or in the slot
/// that the current meta page does not stand in. That slot may be broken, or
/// hold an older meta page, or the current one a second time, as in a new file.
pub proof fn law_interrupted_commit_changes_nothing(
    image: Seq<u8>,
    f: Seq<u8>,
    before: Meta,
    m: Model,
)
    requires
        load::loaded(image) == Ok::<(Meta, Model), Error>((before, m)),
        image.len() <= usize::MAX,
        f.len() <= usize::MAX,
        page::meta_of(slot_of(image, (before.txid % 2) as int)) == Ok::<Meta, Error>(before),
        slot_of(f, (before.txid % 2) as int) == slot_of(image, (before.txid % 2) as int),
        same_pages(image, f, before),
        match page::meta_of(slot_of(f, ((before.txid + 1) % 2) as int)) {
            Err(_) => true,
            Ok(other) => other.txid < before.txid || other == before,
        },
    ensures
        load::loaded(f) == load::loaded(image),
{
    let ps = load::PAGE_SIZE as int;
    assert(before.page_size == ps);
    let todo = seq![before.root];
    assert(load::walk(image, before, todo, Set::empty()) is Ok);
    lemma_root_inside(image, before);
    load::lemma_page_inside(1, before.high_water as int, ps);
    lemma_select_old(f, before);
    lemma_walk_local(image, f, before, todo, Set::empty());
    let slots = load::walk(image, before, todo, Set::empty())->Ok_0;
    assert(load::records_at(f, slots) =~= load::records_at(image, slots)) by {
        assert forall|i: int| 0 <= i < slots.len() implies #[trigger] load::records_at(f, slots)[i]
            == load::records_at(image, slots)[i] by {
            assert(committed(before, slots[i]));
            assert(slots[i].0.of(f) =~= slots[i].0.of(image));
            assert(slots[i].1.of(f) =~= slots[i].1.of(image));
        }
    }
}

/// Whether a byte of a file lies in none of some writes.
pub open spec fn outside(writes: Seq<(u64, Seq<u8>)>, i: int) -> bool {
    forall|k: int|
        0 <= k < writes.len() ==> !((#[trigger] writes[k]).0 <= i < writes[k].0
            + writes[k].1.len())
}

/// Whether a commit is in its file whole: all its pages, and its meta page.
pub open spec fn complete(f: Seq<u8>, c: commit::Commit) -> bool {
    &&& c.length <= f.len()
    &&& carries(f, tree::pages_view(c.writes@))
    &&& bytes::stands_at(f, c.meta_offset as int, c.meta_page@)
}

/// The pages of a commit stand behind those that were committed before.
proof fn lemma_commit_goes_behind(c: commit::Commit, m: Model, before: Meta, i: int)
    requires
        commit::packs(c, m, before),
        before.page_size == load::PAGE_SIZE,
        i < before.high_water * before.page_size,
    ensures
        outside(tree::pages_view(c.writes@), i),
{
    let ps = load::PAGE_SIZE as int;
    let records = choose|records: Seq<RecordView>| #[trigger]
        state::records_match(records, m) && !tree::has_duplicate(records) && match tree::built(
            records,
            before.page_size as int,
            before.high_water,
        ) {
            Err(_) => false,
            Ok(t) => c.publishes(t, before),
        };
    let t = tree::built(records, ps, before.high_water)->Ok_0;
    tree::law_tree_stays_between(tree::in_key_order(records), ps, before.high_water);
    let w = commit::offsets(t.pages, ps);
    assert forall|k: int| 0 <= k < w.len() implies !((#[trigger] w[k]).0 <= i < w[k].0
        + w[k].1.len()) by {
        let at = t.pages[k].0;
        load::lemma_page_inside(at as int, t.high_water as int, ps);
        assert(w[k].0 == at * ps);
        assert(at * ps >= before.high_water * ps) by (nonlinear_arith)
            requires
                at >= before.high_water,
                ps >= 0,
        ;
    }
}

/// Whenever a commit is interrupted, its file holds the database before it, or
/// the one that it was to leave, and nothing between: until the commit is in the
/// file whole, the slot that its meta page goes to is broken or as it was, with
/// an older meta page or, in a new file, the current one once more. What the
/// commit does not write stays.
pub proof fn law_commit_is_all_or_nothing(
    image: Seq<u8>,
    before: Meta,
    was: Model,
    m: Model,
    c: commit::Commit,
    f: Seq<u8>,
)
    requires
        load::loaded(image) == Ok::<(Meta, Model), Error>((before, was)),
        image.len() <= usize::MAX,
        page::meta_of(slot_of(image, (before.txid % 2) as int)) == Ok::<Meta, Error>(before),
        storable(m),
        commit::packs(c, m, before),
        before.high_water * before.page_size <= f.len() <= usize::MAX,
        slot_of(f, (before.txid % 2) as int) == slot_of(image, (before.txid % 2) as int),
        forall|i: int|
            2 * before.page_size <= i < image.len() && i < f.len() && outside(
                tree::pages_view(c.writes@),
                i,
            ) ==> #[trigger] f[i] == image[i],
        complete(f, c) || match page::meta_of(slot_of(f, ((before.txid + 1) % 2) as int)) {
            Err(_) => true,
            Ok(other) => other.txid < before.txid || other == before,
        },
    ensures
        load::loaded(f) == (if complete(f, c) {
            Ok::<(Meta, Model), Error>((c.meta, m))
        } else {
            Ok::<(Meta, Model), Error>((before, was))
        }),
{
    if complete(f, c) {
        law_commit_reads_back(image, before, was, m, c, f);
    } else {
        assert forall|i: int|
            2 * before.page_size <= i < before.high_water * before.page_size implies #[trigger] f[i]
            == image[i] by {
            lemma_commit_goes_behind(c, m, before, i);
        }
        law_interrupted_commit_changes_nothing(image, f, before, was);
    }
}

proof fn lemma_placed_fits(recs: Seq<RecordView>, n: int)
    requires
        0 <= n <= recs.len(),
        load::checked(recs, recs.len() as int) is Ok,
        load::placed(recs, n) is Ok,
    ensures
        state::paths_fit(load::placed(recs, n)->Ok_0),
    decreases n,
{
    if n > 0 {
        lemma_placed_fits(recs, n - 1);
        load::lemma_checked_order(recs, recs.len() as int);
        let r = recs[n - 1];
        assert(load::loaded_of(r, recs.len() == 1) is Ok);
        let m = load::placed(recs, n - 1)->Ok_0;
        let after = load::placed(recs, n)->Ok_0;
        bytes::lemma_pow256_widths();
        if r.key.len() >= 5 {
            bytes::lemma_le_inverse(r.key.subrange(1, 5));
        }
        assert forall|at: Seq<u8>, key: Seq<u8>|
            after.contains_key(at) && #[trigger] after[at].entries.contains_key(
                key,
            ) implies at.len() <= u32::MAX by {
            if m.contains_key(at) && m[at].entries.contains_key(key) {
            }
        }
    }
}

/// What a file holds can be kept in a file.
pub proof fn law_loaded_is_storable(image: Seq<u8>, meta: Meta, m: Model)
    requires
        load::loaded(image) == Ok::<(Meta, Model), Error>((meta, m)),
    ensures
        storable(m),
{
    let slots = load::walk(image, meta, seq![meta.root], Set::empty())->Ok_0;
    let recs = load::records_at(image, slots);
    lemma_placed_fits(recs, recs.len() as int);
}

/// A transaction that was committed is what the next load of the file finds.
pub proof fn law_transaction_reads_back(
    image: Seq<u8>,
    before: Meta,
    t: StagedView,
    c: commit::Commit,
    f: Seq<u8>,
)
    requires
        load::loaded(image) == Ok::<(Meta, Model), Error>((before, t.base)),
        crate::db::write::foresees(t),
        state::paths_fit(commit::outcome(t)->Ok_0),
        commit::packs(c, commit::outcome(t)->Ok_0, before),
        c.length <= f.len() <= usize::MAX,
        carries(f, tree::pages_view(c.writes@)),
        bytes::stands_at(f, c.meta_offset as int, c.meta_page@),
        slot_of(f, (before.txid % 2) as int) == slot_of(image, (before.txid % 2) as int),
    ensures
        load::loaded(f) == Ok::<(Meta, Model), Error>((c.meta, commit::outcome(t)->Ok_0)),
{
    commit::law_foreseen_transaction_has_its_outcome(t);
    law_commit_reads_back(image, before, t.base, commit::outcome(t)->Ok_0, c, f);
}

} // verus!
