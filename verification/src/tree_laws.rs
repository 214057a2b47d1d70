//! What reading gives back of nodes that were laid out, and what it notices of
//! damage.

use crate::bytes;
use crate::error::Error;
use crate::hash;
use crate::page::{self, NodeView, RecordView, Slice, BRANCH, LEAF, NODE_HEADER};
use crate::tree::{self, ItemView, LevelNodeView};
use vstd::prelude::*;

verus! {

/// A node that was written decodes to itself.
pub proof fn lemma_node_decodes(
    s: Seq<u8>,
    kind: u8,
    count: nat,
    payload: Seq<u8>,
    page_size: nat,
    page: u64,
)
    requires
        page_size >= 1,
        tree::node_fits(count, payload.len() as int, page_size as int),
        kind == LEAF || kind == BRANCH,
        bytes::stands_at(s, 0, tree::node_bytes(kind, count, payload, page_size as int, page)),
    ensures
        page::node_of(s, page_size) == Ok::<NodeView, Error>(
            NodeView {
                block: tree::node_bytes(kind, count, payload, page_size as int, page),
                kind,
                count,
                payload_len: payload.len(),
                span: tree::span_of(payload.len() as int, page_size as int) as nat,
                page,
            },
        ),
        tree::node_bytes(kind, count, payload, page_size as int, page).subrange(
            40,
            40 + payload.len() as int,
        ) == payload,
        tree::node_bytes(kind, count, payload, page_size as int, page).len() == tree::span_of(
            payload.len() as int,
            page_size as int,
        ) * page_size,
        40 + payload.len() <= tree::node_bytes(
            kind,
            count,
            payload,
            page_size as int,
            page,
        ).len(),
{
    let ps = page_size as int;
    let len = payload.len() as int;
    let span = tree::span_of(len, ps) as nat;
    let sum = hash::fnv1a(payload);
    let w = tree::node_bytes(kind, count, payload, ps, page);
    tree::lemma_span_covers(len, ps);
    bytes::lemma_le_of_len(count, 4);
    bytes::lemma_le_of_len(span, 4);
    bytes::lemma_le_of_len(payload.len(), 4);
    bytes::lemma_le_of_len(sum as nat, 8);
    bytes::lemma_le_of_len(page as nat, 8);
    bytes::lemma_pow256_widths();
    let head = tree::node_header(kind, count, payload, ps, page);
    assert(head.len() == 40);
    assert(w.len() == span * page_size);
    assert(w.subrange(40, 40 + len) =~= payload);
    assert forall|i: int, j: int| 0 <= i <= j <= w.len() implies #[trigger] s.subrange(i, j)
        == w.subrange(i, j) by {
        assert(s.subrange(0, w.len() as int).subrange(i, j) =~= s.subrange(i, j));
    }
    assert(w.subrange(0, 8) =~= page::node_magic());
    assert(w.subrange(12, 16) =~= bytes::le_of(count, 4));
    assert(w.subrange(16, 20) =~= bytes::le_of(span, 4));
    assert(w.subrange(20, 24) =~= bytes::le_of(payload.len(), 4));
    assert(w.subrange(24, 32) =~= bytes::le_of(sum as nat, 8));
    assert(w.subrange(32, 40) =~= bytes::le_of(page as nat, 8));
    assert(s.subrange(0, 8) == w.subrange(0, 8));
    assert(s.subrange(12, 16) == w.subrange(12, 16));
    assert(s.subrange(16, 20) == w.subrange(16, 20));
    assert(s.subrange(20, 24) == w.subrange(20, 24));
    assert(s.subrange(24, 32) == w.subrange(24, 32));
    assert(s.subrange(32, 40) == w.subrange(32, 40));
    assert(s.subrange(40, 40 + len) == w.subrange(40, 40 + len));
    assert(s[8] == w[8]) by {
        assert(s.subrange(0, w.len() as int)[8] == s[8]);
    }
    assert(w[8] == kind);
    bytes::lemma_le_field(s, 12, count, 4);
    bytes::lemma_le_field(s, 16, span, 4);
    bytes::lemma_le_field(s, 20, payload.len(), 4);
    bytes::lemma_le_field(s, 24, sum as nat, 8);
    bytes::lemma_le_field(s, 32, page as nat, 8);
    assert(s.take(w.len() as int) =~= s.subrange(0, w.len() as int));
}

/// Whether a slot of `b` holds a record.
pub open spec fn slot_holds(b: Seq<u8>, slot: (Slice, Slice), r: RecordView) -> bool {
    slot.0.of(b) == r.key && slot.1.of(b) == r.value
}

proof fn lemma_entries_prefix(items: Seq<ItemView>, i: int)
    requires
        0 <= i < items.len(),
    ensures
        tree::entries_of(items.take(i + 1)) == tree::entries_of(items.take(i)) + items[i].entry,
        tree::entries_of(items.take(i + 1)).is_prefix_of(tree::entries_of(items)),
    decreases items.len() - i,
{
    assert(items.take(i + 1).drop_last() =~= items.take(i));
    if i + 1 == items.len() {
        assert(items.take(i + 1) =~= items);
    } else {
        lemma_entries_prefix(items, i + 1);
    }
}

/// The entry of item `i` stands in the payload where the entries before it
/// end.
proof fn lemma_entry_stands(b: Seq<u8>, items: Seq<ItemView>, i: int)
    requires
        0 <= i < items.len(),
        40 + tree::entries_of(items).len() <= b.len(),
        b.subrange(40, 40 + tree::entries_of(items).len() as int) == tree::entries_of(items),
    ensures
        bytes::stands_at(b, 40 + tree::entries_of(items.take(i)).len() as int, items[i].entry),
        tree::entries_of(items.take(i + 1)).len() == tree::entries_of(items.take(i)).len()
            + items[i].entry.len(),
        tree::entries_of(items.take(i + 1)).len() <= tree::entries_of(items).len(),
{
    lemma_entries_prefix(items, i);
    let whole = tree::entries_of(items);
    let upto = tree::entries_of(items.take(i + 1));
    let off = tree::entries_of(items.take(i)).len() as int;
    let w = items[i].entry;
    assert forall|k: int| 0 <= k < w.len() implies b[40 + off + k] == w[k] by {
        assert(upto[off + k] == w[k]);
        assert(whole[off + k] == upto[off + k]);
        assert(b.subrange(40, 40 + whole.len() as int)[off + k] == b[40 + off + k]);
    }
    assert(b.subrange(40 + off, 40 + off + w.len()) =~= w);
}

proof fn lemma_leaf_slot_parses(b: Seq<u8>, at: int, end: int, r: RecordView)
    requires
        bytes::stands_at(b, at, tree::leaf_item(r).entry),
        at + tree::leaf_item(r).entry.len() <= end <= b.len() <= usize::MAX,
        r.key.len() <= u32::MAX,
    ensures
        page::leaf_slot_at(b, at, end) is Ok,
        slot_holds(b, page::leaf_slot_at(b, at, end)->Ok_0, r),
        page::leaf_slot_at(b, at, end)->Ok_0.1.offset + page::leaf_slot_at(b, at, end)->Ok_0.1.len
            == at + tree::leaf_item(r).entry.len(),
{
    let w = tree::leaf_item(r).entry;
    bytes::lemma_le_of_len(r.key.len(), 4);
    bytes::lemma_le_of_len(r.value.len(), 8);
    bytes::lemma_pow256_widths();
    let k = r.key.len() as int;
    let v = r.value.len() as int;
    assert(w.len() == 12 + k + v);
    assert(w.subrange(0, 4) =~= bytes::le_of(r.key.len(), 4));
    assert(w.subrange(4, 12) =~= bytes::le_of(r.value.len(), 8));
    assert(w.subrange(12, 12 + k) =~= r.key);
    assert(w.subrange(12 + k, 12 + k + v) =~= r.value);
    assert forall|i: int, j: int| 0 <= i <= j <= w.len() implies #[trigger] b.subrange(
        at + i,
        at + j,
    ) == w.subrange(i, j) by {
        assert(b.subrange(at, at + w.len()).subrange(i, j) =~= b.subrange(at + i, at + j));
    }
    assert(b.subrange(at + 0, at + 4) == w.subrange(0, 4));
    assert(b.subrange(at + 4, at + 12) == w.subrange(4, 12));
    assert(b.subrange(at + 12, at + (12 + k)) == w.subrange(12, 12 + k));
    assert(b.subrange(at + (12 + k), at + (12 + k + v)) == w.subrange(12 + k, 12 + k + v));
    bytes::lemma_le_field(b, at, r.key.len(), 4);
    bytes::lemma_le_field(b, at + 4, r.value.len(), 8);
}

/// The records of a leaf that was written parse back.
pub proof fn lemma_leaf_slots_parse(b: Seq<u8>, recs: Seq<RecordView>, i: int)
    requires
        0 <= i <= recs.len(),
        ({
            let payload = tree::entries_of(tree::leaf_items(recs));
            40 + payload.len() <= b.len() <= usize::MAX && b.subrange(40, 40 + payload.len() as int)
                == payload
        }),
        forall|j: int| 0 <= j < recs.len() ==> (#[trigger] recs[j]).key.len() <= u32::MAX,
    ensures
        ({
            let items = tree::leaf_items(recs);
            let r = page::leaf_slots_at(
                b,
                40 + tree::entries_of(items.take(i)).len() as int,
                (recs.len() - i) as nat,
                40 + tree::entries_of(items).len() as int,
            );
            &&& r is Ok
            &&& r->Ok_0.len() == recs.len() - i
            &&& forall|j: int|
                0 <= j < r->Ok_0.len() ==> slot_holds(b, #[trigger] r->Ok_0[j], recs[i + j])
        }),
    decreases recs.len() - i,
{
    let items = tree::leaf_items(recs);
    let end = 40 + tree::entries_of(items).len() as int;
    let at = 40 + tree::entries_of(items.take(i)).len() as int;
    if i == recs.len() {
        assert(items.take(i) =~= items);
    } else {
        lemma_entry_stands(b, items, i);
        assert(items[i] == tree::leaf_item(recs[i]));
        lemma_leaf_slot_parses(b, at, end, recs[i]);
        lemma_leaf_slots_parse(b, recs, i + 1);
        let first = page::leaf_slot_at(b, at, end)->Ok_0;
        let rest = page::leaf_slots_at(
            b,
            at + items[i].entry.len(),
            (recs.len() - i - 1) as nat,
            end,
        )->Ok_0;
        let all = seq![first] + rest;
        assert forall|j: int| 0 <= j < all.len() implies slot_holds(
            b,
            #[trigger] all[j],
            recs[i + j],
        ) by {
            if j > 0 {
                assert(all[j] == rest[j - 1]);
            }
        }
    }
}

proof fn lemma_branch_slot_parses(b: Seq<u8>, at: int, end: int, n: LevelNodeView)
    requires
        bytes::stands_at(b, at, tree::branch_item(n).entry),
        at + tree::branch_item(n).entry.len() <= end <= b.len() <= usize::MAX,
        n.first_key.len() <= u32::MAX,
    ensures
        page::branch_slot_at(b, at, end) is Ok,
        page::branch_slot_at(b, at, end)->Ok_0.1 == n.page,
        page::branch_slot_at(b, at, end)->Ok_0.0.of(b) == n.first_key,
        page::branch_slot_at(b, at, end)->Ok_0.0.offset + page::branch_slot_at(
            b,
            at,
            end,
        )->Ok_0.0.len == at + tree::branch_item(n).entry.len(),
{
    let w = tree::branch_item(n).entry;
    bytes::lemma_le_of_len(n.first_key.len(), 4);
    bytes::lemma_le_of_len(n.page as nat, 8);
    bytes::lemma_pow256_widths();
    let k = n.first_key.len() as int;
    assert(w.len() == 12 + k);
    assert(w.subrange(0, 4) =~= bytes::le_of(n.first_key.len(), 4));
    assert(w.subrange(4, 12) =~= bytes::le_of(n.page as nat, 8));
    assert(w.subrange(12, 12 + k) =~= n.first_key);
    assert forall|i: int, j: int| 0 <= i <= j <= w.len() implies #[trigger] b.subrange(
        at + i,
        at + j,
    ) == w.subrange(i, j) by {
        assert(b.subrange(at, at + w.len()).subrange(i, j) =~= b.subrange(at + i, at + j));
    }
    assert(b.subrange(at + 0, at + 4) == w.subrange(0, 4));
    assert(b.subrange(at + 4, at + 12) == w.subrange(4, 12));
    assert(b.subrange(at + 12, at + (12 + k)) == w.subrange(12, 12 + k));
    bytes::lemma_le_field(b, at, n.first_key.len(), 4);
    bytes::lemma_le_field(b, at + 4, n.page as nat, 8);
}

/// The children of a branch that was written parse back.
pub proof fn lemma_branch_slots_parse(b: Seq<u8>, nodes: Seq<LevelNodeView>, i: int)
    requires
        0 <= i <= nodes.len(),
        ({
            let payload = tree::entries_of(tree::branch_items(nodes));
            40 + payload.len() <= b.len() <= usize::MAX && b.subrange(40, 40 + payload.len() as int)
                == payload
        }),
        forall|j: int| 0 <= j < nodes.len() ==> (#[trigger] nodes[j]).first_key.len() <= u32::MAX,
    ensures
        ({
            let items = tree::branch_items(nodes);
            let r = page::branch_slots_at(
                b,
                40 + tree::entries_of(items.take(i)).len() as int,
                (nodes.len() - i) as nat,
                40 + tree::entries_of(items).len() as int,
            );
            &&& r is Ok
            &&& r->Ok_0.len() == nodes.len() - i
            &&& forall|j: int|
                0 <= j < r->Ok_0.len() ==> (#[trigger] r->Ok_0[j]).1 == nodes[i + j].page
                    && r->Ok_0[j].0.of(b) == nodes[i + j].first_key
        }),
    decreases nodes.len() - i,
{
    let items = tree::branch_items(nodes);
    let end = 40 + tree::entries_of(items).len() as int;
    let at = 40 + tree::entries_of(items.take(i)).len() as int;
    if i == nodes.len() {
        assert(items.take(i) =~= items);
    } else {
        lemma_entry_stands(b, items, i);
        assert(items[i] == tree::branch_item(nodes[i]));
        lemma_branch_slot_parses(b, at, end, nodes[i]);
        lemma_branch_slots_parse(b, nodes, i + 1);
        let first = page::branch_slot_at(b, at, end)->Ok_0;
        let rest = page::branch_slots_at(
            b,
            at + items[i].entry.len(),
            (nodes.len() - i - 1) as nat,
            end,
        )->Ok_0;
        let all = seq![first] + rest;
        assert forall|j: int| 0 <= j < all.len() implies (#[trigger] all[j]).1 == nodes[i
            + j].page && all[j].0.of(b) == nodes[i + j].first_key by {
            if j > 0 {
                assert(all[j] == rest[j - 1]);
            }
        }
    }
}

/// A node takes as few pages as hold it.
pub proof fn law_span_is_least(len: int, page_size: int, pages: int)
    requires
        len >= 0,
        page_size >= 1,
    ensures
        pages * page_size >= NODE_HEADER + len <==> pages >= tree::span_of(len, page_size),
{
    tree::lemma_span_covers(len, page_size);
    let span = tree::span_of(len, page_size);
    if pages >= span {
        assert(pages * page_size >= span * page_size) by (nonlinear_arith)
            requires
                pages >= span,
                page_size >= 0,
        ;
    } else {
        assert(pages * page_size <= span * page_size - page_size) by (nonlinear_arith)
            requires
                pages <= span - 1,
                page_size >= 0,
        ;
    }
}

/// A node that was laid out decodes, whatever follows it: to its page, its kind
/// and its payload.
pub proof fn law_node_reads_back(
    kind: u8,
    count: nat,
    payload: Seq<u8>,
    page_size: nat,
    page: u64,
    tail: Seq<u8>,
)
    requires
        page_size >= 1,
        kind == LEAF || kind == BRANCH,
        tree::node_fits(count, payload.len() as int, page_size as int),
    ensures
        ({
            let e = tree::node_bytes(kind, count, payload, page_size as int, page);
            let n = NodeView {
                block: e,
                kind,
                count,
                payload_len: payload.len(),
                span: tree::span_of(payload.len() as int, page_size as int) as nat,
                page,
            };
            &&& page::node_of(e + tail, page_size) == Ok::<NodeView, Error>(n)
            &&& n.span * page_size == e.len()
            &&& e.subrange(NODE_HEADER as int, NODE_HEADER + payload.len()) == payload
        }),
{
    let e = tree::node_bytes(kind, count, payload, page_size as int, page);
    assert((e + tail).subrange(0, e.len() as int) =~= e);
    lemma_node_decodes(e + tail, kind, count, payload, page_size, page);
}

/// A changed byte of a node's payload is noticed.
pub proof fn law_changed_payload_is_noticed(
    kind: u8,
    count: nat,
    payload: Seq<u8>,
    page_size: nat,
    page: u64,
    i: int,
    byte: u8,
    tail: Seq<u8>,
)
    requires
        page_size >= 1,
        kind == LEAF || kind == BRANCH,
        tree::node_fits(count, payload.len() as int, page_size as int),
        NODE_HEADER <= i < NODE_HEADER + payload.len(),
        byte != payload[i - NODE_HEADER],
    ensures
        page::node_of(
            tree::node_bytes(kind, count, payload, page_size as int, page).update(i, byte) + tail,
            page_size,
        ) == Err::<NodeView, Error>(Error::Corrupt("node checksum mismatch")),
{
    let e = tree::node_bytes(kind, count, payload, page_size as int, page);
    law_node_reads_back(kind, count, payload, page_size, page, tail);
    let s = e + tail;
    let x = e.update(i, byte) + tail;
    let len = payload.len() as int;
    assert forall|a: int, b: int| 0 <= a <= b <= NODE_HEADER implies #[trigger] x.subrange(a, b)
        == s.subrange(a, b) by {
        assert(x.subrange(a, b) =~= s.subrange(a, b));
    }
    assert(x.subrange(0, 8) == s.subrange(0, 8));
    assert(x.subrange(12, 16) == s.subrange(12, 16));
    assert(x.subrange(16, 20) == s.subrange(16, 20));
    assert(x.subrange(20, 24) == s.subrange(20, 24));
    assert(x.subrange(24, 32) == s.subrange(24, 32));
    assert(x[8] == s[8]);
    let body = s.subrange(NODE_HEADER as int, NODE_HEADER + len);
    assert(body =~= payload) by {
        assert(e.subrange(NODE_HEADER as int, NODE_HEADER + len) =~= body);
    }
    assert(x.subrange(NODE_HEADER as int, NODE_HEADER + len) =~= payload.update(
        i - NODE_HEADER,
        byte,
    ));
    hash::law_one_byte_changes_the_hash(hash::FNV_OFFSET, payload, i - NODE_HEADER, byte);
}

/// The records of a leaf read back, in order; they are no branches.
pub proof fn law_leaf_records_read_back(recs: Seq<RecordView>, page_size: nat, page: u64)
    requires
        page_size >= 1,
        forall|j: int| 0 <= j < recs.len() ==> (#[trigger] recs[j]).key.len() <= u32::MAX,
        tree::node_fits(
            recs.len(),
            tree::entries_of(tree::leaf_items(recs)).len() as int,
            page_size as int,
        ),
    ensures
        ({
            let payload = tree::entries_of(tree::leaf_items(recs));
            let e = tree::node_bytes(LEAF, recs.len(), payload, page_size as int, page);
            let n = page::node_of(e, page_size)->Ok_0;
            &&& page::node_of(e, page_size) is Ok
            &&& n.leaf_slots() is Ok
            &&& n.leaf_slots()->Ok_0.len() == recs.len()
            &&& forall|j: int|
                0 <= j < recs.len() ==> slot_holds(
                    n.block,
                    #[trigger] n.leaf_slots()->Ok_0[j],
                    recs[j],
                )
            &&& n.branch_slots() == Err::<Seq<(Slice, u64)>, Error>(
                Error::Corrupt("expected branch node"),
            )
        }),
{
    let items = tree::leaf_items(recs);
    let payload = tree::entries_of(items);
    let e = tree::node_bytes(LEAF, recs.len(), payload, page_size as int, page);
    assert(e.subrange(0, e.len() as int) =~= e);
    lemma_node_decodes(e, LEAF, recs.len(), payload, page_size, page);
    lemma_leaf_slots_parse(e, recs, 0);
    assert(items.take(0) =~= Seq::<ItemView>::empty());
    let slots = page::leaf_slots_at(e, 40, recs.len(), 40 + payload.len() as int)->Ok_0;
    assert forall|j: int| 0 <= j < recs.len() implies slot_holds(
        e,
        #[trigger] slots[j],
        recs[j],
    ) by {
        assert(slot_holds(e, slots[j], recs[0 + j]));
    }
}

/// The branches of a node read back, in order; they are no leaf's records.
pub proof fn law_branches_read_back(nodes: Seq<LevelNodeView>, page_size: nat, page: u64)
    requires
        page_size >= 1,
        forall|j: int| 0 <= j < nodes.len() ==> (#[trigger] nodes[j]).first_key.len() <= u32::MAX,
        tree::node_fits(
            nodes.len(),
            tree::entries_of(tree::branch_items(nodes)).len() as int,
            page_size as int,
        ),
    ensures
        ({
            let payload = tree::entries_of(tree::branch_items(nodes));
            let e = tree::node_bytes(BRANCH, nodes.len(), payload, page_size as int, page);
            let n = page::node_of(e, page_size)->Ok_0;
            &&& page::node_of(e, page_size) is Ok
            &&& n.branch_slots() is Ok
            &&& n.branch_slots()->Ok_0.len() == nodes.len()
            &&& forall|j: int|
                0 <= j < nodes.len() ==> (#[trigger] n.branch_slots()->Ok_0[j]).0.of(n.block)
                    == nodes[j].first_key && n.branch_slots()->Ok_0[j].1 == nodes[j].page
            &&& n.leaf_slots() == Err::<Seq<(Slice, Slice)>, Error>(
                Error::Corrupt("expected leaf node"),
            )
        }),
{
    let items = tree::branch_items(nodes);
    let payload = tree::entries_of(items);
    let e = tree::node_bytes(BRANCH, nodes.len(), payload, page_size as int, page);
    assert(e.subrange(0, e.len() as int) =~= e);
    lemma_node_decodes(e, BRANCH, nodes.len(), payload, page_size, page);
    lemma_branch_slots_parse(e, nodes, 0);
    assert(items.take(0) =~= Seq::<ItemView>::empty());
    let slots = page::branch_slots_at(e, 40, nodes.len(), 40 + payload.len() as int)->Ok_0;
    assert forall|j: int| 0 <= j < nodes.len() implies (#[trigger] slots[j]).0.of(e)
        == nodes[j].first_key && slots[j].1 == nodes[j].page by {
        assert(slots[j].1 == nodes[0 + j].page);
    }
}

/// Whether every node of a list decodes to the page it is listed under.
pub open spec fn pages_numbered(pages: Seq<(u64, Seq<u8>)>, page_size: nat) -> bool {
    forall|i: int|
        0 <= i < pages.len() ==> page::node_of((#[trigger] pages[i]).1, page_size) is Ok
            && page::node_of(pages[i].1, page_size)->Ok_0.page == pages[i].0
}

proof fn lemma_packed_numbered(
    kind: u8,
    items: Seq<ItemView>,
    from: int,
    page_size: int,
    next: u64,
)
    requires
        kind == LEAF || kind == BRANCH,
        0 <= from,
        page_size >= 1,
        tree::packed(kind, items, from, page_size, next) is Some,
    ensures
        pages_numbered(
            tree::packed(kind, items, from, page_size, next)->0.pages,
            page_size as nat,
        ),
    decreases items.len() - from,
{
    if from < items.len() {
        let end = tree::group_end(items, from, page_size);
        tree::lemma_fit_end(items, from + 1, NODE_HEADER + items[from].entry.len(), page_size);
        let payload = tree::entries_of(items.subrange(from, end));
        let count = (end - from) as nat;
        let after = (next + tree::span_of(payload.len() as int, page_size)) as u64;
        lemma_packed_numbered(kind, items, end, page_size, after);
        let rest = tree::packed(kind, items, end, page_size, after)->0.pages;
        let all = tree::packed(kind, items, from, page_size, next)->0.pages;
        let e = tree::node_bytes(kind, count, payload, page_size, next);
        law_node_reads_back(kind, count, payload, page_size as nat, next, Seq::empty());
        assert(e + Seq::<u8>::empty() =~= e);
        assert forall|i: int| 0 <= i < all.len() implies page::node_of(
            (#[trigger] all[i]).1,
            page_size as nat,
        ) is Ok && page::node_of(all[i].1, page_size as nat)->Ok_0.page == all[i].0 by {
            if i > 0 {
                assert(all[i] == rest[i - 1]);
            }
        }
    }
}

proof fn lemma_numbered_add(a: Seq<(u64, Seq<u8>)>, b: Seq<(u64, Seq<u8>)>, page_size: nat)
    requires
        pages_numbered(a, page_size),
        pages_numbered(b, page_size),
    ensures
        pages_numbered(a + b, page_size),
{
    let all = a + b;
    assert forall|i: int| 0 <= i < all.len() implies page::node_of(
        (#[trigger] all[i]).1,
        page_size,
    ) is Ok && page::node_of(all[i].1, page_size)->Ok_0.page == all[i].0 by {
        if i >= a.len() {
            assert(all[i] == b[i - a.len()]);
        } else {
            assert(all[i] == a[i]);
        }
    }
}

proof fn lemma_upper_numbered(level: Seq<LevelNodeView>, page_size: int, next: u64)
    requires
        page_size >= 1,
        tree::upper_levels(level, page_size, next) is Some,
    ensures
        pages_numbered(tree::upper_levels(level, page_size, next)->0.pages, page_size as nat),
    decreases level.len(),
{
    if level.len() > 1 {
        let items = tree::branch_items(level);
        let up = tree::packed(BRANCH, items, 0, page_size, next)->0;
        lemma_packed_numbered(BRANCH, items, 0, page_size, next);
        lemma_upper_numbered(up.nodes, page_size, up.next);
        lemma_numbered_add(
            up.pages,
            tree::upper_levels(up.nodes, page_size, up.next)->0.pages,
            page_size as nat,
        );
    }
}

/// Every node of a tree carries the number of the page it is stored under.
pub proof fn law_nodes_carry_their_pages(records: Seq<RecordView>, page_size: int, start: u64)
    requires
        tree::built(records, page_size, start) is Ok,
    ensures
        pages_numbered(tree::built(records, page_size, start)->Ok_0.pages, page_size as nat),
{
    let items = tree::leaf_items(tree::filled(tree::in_key_order(records)));
    let level = tree::packed(LEAF, items, 0, page_size, start)->0;
    lemma_packed_numbered(LEAF, items, 0, page_size, start);
    lemma_upper_numbered(level.nodes, page_size, level.next);
    lemma_numbered_add(
        level.pages,
        tree::upper_levels(level.nodes, page_size, level.next)->0.pages,
        page_size as nat,
    );
}

} // verus!
