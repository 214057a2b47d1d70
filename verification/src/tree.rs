//! Packing sorted records into the nodes of a B+ tree, bottom up.
//!
//! A level is a list of items, each a key with the bytes of its entry. Items
//! go into a node as long as the node stays within one page; an item that is
//! larger than a page gets a node of its own that covers several. The nodes of
//! one level are the items of the next, until one node is left: the root.

use crate::bytes::{self, append, less, owned, push_u32_le, push_u64_le, same};
use crate::error::Error;
use crate::hash::{self, hash};
use crate::page::{self, Record, RecordView, BRANCH, LEAF, NODE_HEADER};
use vstd::prelude::*;

verus! {

/// A key with the bytes of its entry.
pub struct Item {
    pub key: Vec<u8>,
    pub entry: Vec<u8>,
}

/// An item by the values it holds.
#[verifier::ext_equal]
pub struct ItemView {
    pub key: Seq<u8>,
    pub entry: Seq<u8>,
}

impl View for Item {
    type V = ItemView;

    open spec fn view(&self) -> ItemView {
        ItemView { key: self.key@, entry: self.entry@ }
    }
}

/// A node of a finished level: its first key and its page.
#[derive(Debug)]
pub struct LevelNode {
    pub first_key: Vec<u8>,
    pub page: u64,
}

/// A level's node by the values it holds.
#[verifier::ext_equal]
pub struct LevelNodeView {
    pub first_key: Seq<u8>,
    pub page: u64,
}

impl View for LevelNode {
    type V = LevelNodeView;

    open spec fn view(&self) -> LevelNodeView {
        LevelNodeView { first_key: self.first_key@, page: self.page }
    }
}

/// A packed tree: its root, the first page behind it, and its pages.
#[derive(Debug)]
pub struct BuiltTree {
    pub root: u64,
    pub high_water: u64,
    pub pages: Vec<(u64, Vec<u8>)>,
}

/// A packed tree by the values it holds.
#[verifier::ext_equal]
pub struct TreeView {
    pub root: u64,
    pub high_water: u64,
    pub pages: Seq<(u64, Seq<u8>)>,
}

/// A list of pages by the values it holds.
pub open spec fn pages_view(pages: Seq<(u64, Vec<u8>)>) -> Seq<(u64, Seq<u8>)> {
    pages.map_values(|p: (u64, Vec<u8>)| (p.0, p.1@))
}

impl View for BuiltTree {
    type V = TreeView;

    open spec fn view(&self) -> TreeView {
        TreeView {
            root: self.root,
            high_water: self.high_water,
            pages: pages_view(self.pages@),
        }
    }
}

/// A list of items by the values it holds.
pub open spec fn items_view(items: Seq<Item>) -> Seq<ItemView> {
    items.map_values(|i: Item| i@)
}

/// A list of level nodes by the values it holds.
pub open spec fn nodes_view(nodes: Seq<LevelNode>) -> Seq<LevelNodeView> {
    nodes.map_values(|n: LevelNode| n@)
}

/// How many pages a node with a payload of `len` bytes covers.
pub open spec fn span_of(len: int, page_size: int) -> int {
    (NODE_HEADER + len + page_size - 1) / page_size
}

/// The header of a node.
pub open spec fn node_header(
    kind: u8,
    count: nat,
    payload: Seq<u8>,
    page_size: int,
    page: u64,
) -> Seq<u8> {
    page::node_magic() + seq![kind, 0, 0, 0] + bytes::le_of(count, 4) + bytes::le_of(
        span_of(payload.len() as int, page_size) as nat,
        4,
    ) + bytes::le_of(payload.len(), 4) + bytes::le_of(hash::fnv1a(payload) as nat, 8)
        + bytes::le_of(page as nat, 8)
}

/// A node as it is written: header, payload, and zeros up to a whole number of
/// pages.
pub open spec fn node_bytes(
    kind: u8,
    count: nat,
    payload: Seq<u8>,
    page_size: int,
    page: u64,
) -> Seq<u8> {
    let total = span_of(payload.len() as int, page_size) * page_size;
    node_header(kind, count, payload, page_size, page) + payload + bytes::zeros(
        (total - NODE_HEADER - payload.len()) as nat,
    )
}

/// Whether a node can be written: its counts fit their fields, and its bytes
/// fit in memory.
pub open spec fn node_fits(count: nat, len: int, page_size: int) -> bool {
    &&& count <= u32::MAX
    &&& len <= u32::MAX
    &&& span_of(len, page_size) <= u32::MAX
    &&& span_of(len, page_size) * page_size <= usize::MAX
}

/// Whether a page size can carry a tree.
pub open spec fn page_size_ok(page_size: int) -> bool {
    page_size >= 1024 && page::power_of_two(page_size as nat)
}

/// Lays a node out.
fn encode_node(kind: u8, count: usize, payload: &[u8], page_size: usize, page: u64) -> (r: Result<
    Vec<u8>,
    Error,
>)
    requires
        page_size >= 1024,
    ensures
        match r {
            Ok(out) => node_fits(count as nat, payload@.len() as int, page_size as int) && out@
                == node_bytes(kind, count as nat, payload@, page_size as int, page) && out@.len()
                == span_of(payload@.len() as int, page_size as int) * page_size,
            Err(e) => e == Error::TooLarge && !node_fits(
                count as nat,
                payload@.len() as int,
                page_size as int,
            ),
        },
{
    let ghost ps = page_size as int;
    let ghost len = payload@.len() as int;
    if count as u64 > u32::MAX as u64 || payload.len() as u64 > u32::MAX as u64 {
        return Err(Error::TooLarge);
    }
    let filled: u64 = NODE_HEADER as u64 + payload.len() as u64;
    let per: u64 = page_size as u64;
    let partial: u64 = filled % per;
    let span: u64 = if partial == 0 {
        filled / per
    } else {
        filled / per + 1
    };
    proof {
        lemma_ceil(filled as int, ps);
    }
    assert(span as int == span_of(len, ps));
    if span > u32::MAX as u64 {
        return Err(Error::TooLarge);
    }
    if span > usize::MAX as u64 {
        assert(span * ps > usize::MAX) by (nonlinear_arith)
            requires
                span > usize::MAX,
                ps >= 1024,
        ;
        return Err(Error::TooLarge);
    }
    let total: usize = match (span as usize).checked_mul(page_size) {
        Some(n) => n,
        None => return Err(Error::TooLarge),
    };
    let mut out: Vec<u8> = Vec::new();
    append(&mut out, &page::node_magic_bytes());
    out.push(kind);
    out.push(0);
    out.push(0);
    out.push(0);
    push_u32_le(&mut out, count as u32);
    push_u32_le(&mut out, span as u32);
    push_u32_le(&mut out, payload.len() as u32);
    push_u64_le(&mut out, hash(payload));
    push_u64_le(&mut out, page);
    assert(out@ =~= node_header(kind, count as nat, payload@, ps, page));
    append(&mut out, payload);
    proof {
        lemma_node_header_len(kind, count as nat, payload@, ps, page);
        assert(total as int == span_of(len, ps) * ps);
        lemma_span_covers(len, ps);
    }
    let missing: usize = total - out.len();
    page::push_zeros(&mut out, missing);
    assert(out@ =~= node_bytes(kind, count as nat, payload@, ps, page));
    Ok(out)
}


proof fn lemma_ceil(a: int, b: int)
    requires
        a >= 0,
        b > 0,
    ensures
        (a + b - 1) / b == if a % b == 0 {
            a / b
        } else {
            a / b + 1
        },
{
    let q = a / b;
    let r = a % b;
    assert(a == b * q + r) by {
        vstd::arithmetic::div_mod::lemma_fundamental_div_mod(a, b);
    }
    if r == 0 {
        assert((a + b - 1) == q * b + (b - 1)) by (nonlinear_arith)
            requires
                a == b * q + r,
                r == 0,
        ;
        vstd::arithmetic::div_mod::lemma_fundamental_div_mod_converse(a + b - 1, b, q, b - 1);
    } else {
        assert((a + b - 1) == (q + 1) * b + (r - 1)) by (nonlinear_arith)
            requires
                a == b * q + r,
        ;
        vstd::arithmetic::div_mod::lemma_fundamental_div_mod_converse(a + b - 1, b, q + 1, r - 1);
    }
}

/// A node covers what it holds, and less than one page more.
pub proof fn lemma_span_covers(len: int, page_size: int)
    requires
        len >= 0,
        page_size >= 1,
    ensures
        span_of(len, page_size) >= 1,
        NODE_HEADER + len <= span_of(len, page_size) * page_size < NODE_HEADER + len + page_size,
        (span_of(len, page_size) * page_size) / page_size == span_of(len, page_size),
{
    let a = NODE_HEADER + len + page_size - 1;
    let q = a / page_size;
    vstd::arithmetic::div_mod::lemma_fundamental_div_mod(a, page_size);
    assert(page_size * q == q * page_size) by (nonlinear_arith);
    vstd::arithmetic::div_mod::lemma_div_by_multiple(q, page_size);
    assert(q >= 1) by (nonlinear_arith)
        requires
            page_size * q > a - page_size,
            a >= page_size,
            page_size > 0,
    ;
}

proof fn lemma_node_header_len(kind: u8, count: nat, payload: Seq<u8>, page_size: int, page: u64)
    ensures
        node_header(kind, count, payload, page_size, page).len() == NODE_HEADER,
{
    bytes::lemma_le_of_len(count, 4);
    bytes::lemma_le_of_len(span_of(payload.len() as int, page_size) as nat, 4);
    bytes::lemma_le_of_len(payload.len(), 4);
    bytes::lemma_le_of_len(hash::fnv1a(payload) as nat, 8);
    bytes::lemma_le_of_len(page as nat, 8);
}

/// The entries of some items, back to back.
pub open spec fn entries_of(items: Seq<ItemView>) -> Seq<u8>
    decreases items.len(),
{
    if items.len() == 0 {
        Seq::empty()
    } else {
        entries_of(items.drop_last()) + items.last().entry
    }
}

/// How far a node that already uses `used` bytes can take items from `from`
/// on, within one page.
pub open spec fn fit_end(items: Seq<ItemView>, from: int, used: int, page_size: int) -> int
    decreases items.len() - from,
{
    if from >= items.len() || used + items[from].entry.len() > page_size {
        from
    } else {
        fit_end(items, from + 1, used + items[from].entry.len(), page_size)
    }
}

/// Where the node that begins with item `from` ends. It takes at least that
/// one.
pub open spec fn group_end(items: Seq<ItemView>, from: int, page_size: int) -> int {
    fit_end(items, from + 1, NODE_HEADER + items[from].entry.len(), page_size)
}

pub proof fn lemma_fit_end(items: Seq<ItemView>, from: int, used: int, page_size: int)
    requires
        from <= items.len(),
    ensures
        from <= fit_end(items, from, used, page_size) <= items.len(),
    decreases items.len() - from,
{
    if !(from >= items.len() || used + items[from].entry.len() > page_size) {
        lemma_fit_end(items, from + 1, used + items[from].entry.len(), page_size);
    }
}

/// A packed level: its nodes, their pages, and the next free page.
#[verifier::ext_equal]
pub struct LevelView {
    pub nodes: Seq<LevelNodeView>,
    pub pages: Seq<(u64, Seq<u8>)>,
    pub next: u64,
}

/// The items from `from` on, packed into nodes from page `next` on. There is
/// no such level where a node does not fit the format or the page numbers run
/// out.
pub open spec fn packed(
    kind: u8,
    items: Seq<ItemView>,
    from: int,
    page_size: int,
    next: u64,
) -> Option<LevelView>
    decreases items.len() - from,
    when 0 <= from
    via packed_decreases
{
    if from >= items.len() {
        Some(LevelView { nodes: Seq::empty(), pages: Seq::empty(), next })
    } else {
        let end = group_end(items, from, page_size);
        let payload = entries_of(items.subrange(from, end));
        let count = (end - from) as nat;
        let after = next + span_of(payload.len() as int, page_size);
        if !node_fits(count, payload.len() as int, page_size) || after > u64::MAX {
            None
        } else {
            match packed(kind, items, end, page_size, after as u64) {
                None => None,
                Some(rest) => Some(
                    LevelView {
                        nodes: seq![LevelNodeView { first_key: items[from].key, page: next }]
                            + rest.nodes,
                        pages: seq![(next, node_bytes(kind, count, payload, page_size, next))]
                            + rest.pages,
                        next: rest.next,
                    },
                ),
            }
        }
    }
}

#[via_fn]
proof fn packed_decreases(
    kind: u8,
    items: Seq<ItemView>,
    from: int,
    page_size: int,
    next: u64,
) {
    if from < items.len() {
        lemma_fit_end(items, from + 1, NODE_HEADER + items[from].entry.len(), page_size);
    }
}

/// A level before which others were packed.
pub open spec fn level_after(
    nodes: Seq<LevelNodeView>,
    pages: Seq<(u64, Seq<u8>)>,
    rest: Option<LevelView>,
) -> Option<LevelView> {
    match rest {
        None => None,
        Some(rest) => Some(
            LevelView { nodes: nodes + rest.nodes, pages: pages + rest.pages, next: rest.next },
        ),
    }
}

/// The entries of items `from` to `end`, back to back.
fn concat_entries(items: &Vec<Item>, from: usize, end: usize) -> (r: Vec<u8>)
    requires
        from <= end <= items@.len(),
    ensures
        r@ == entries_of(items_view(items@).subrange(from as int, end as int)),
{
    let ghost views = items_view(items@);
    let mut out: Vec<u8> = Vec::new();
    let mut i: usize = from;
    while i < end
        invariant
            from <= i <= end <= items@.len(),
            views == items_view(items@),
            out@ == entries_of(views.subrange(from as int, i as int)),
        decreases end - i,
    {
        let ghost was = views.subrange(from as int, i as int);
        append(&mut out, &items[i].entry);
        i = i + 1;
        proof {
            let now = views.subrange(from as int, i as int);
            assert(now.drop_last() =~= was);
            assert(now.last() == views[i - 1]);
        }
    }
    out
}

/// Packs items into the nodes of one level.
fn pack_level(
    kind: u8,
    items: &Vec<Item>,
    page_size: usize,
    start: u64,
    pages: &mut Vec<(u64, Vec<u8>)>,
) -> (r: Result<(Vec<LevelNode>, u64), Error>)
    requires
        page_size >= 1024,
    ensures
        match (r, packed(kind, items_view(items@), 0, page_size as int, start)) {
            (Ok((nodes, next)), Some(level)) => nodes_view(nodes@) == level.nodes && next
                == level.next && pages_view(final(pages)@) == pages_view(old(pages)@)
                + level.pages,
            (Err(e), None) => e == Error::TooLarge,
            _ => false,
        },
{
    let ghost views = items_view(items@);
    let ghost ps = page_size as int;
    let ghost all = packed(kind, views, 0, ps, start);
    let ghost begun = pages_view(pages@);
    let ghost mut done: Seq<(u64, Seq<u8>)> = Seq::empty();
    let mut nodes: Vec<LevelNode> = Vec::new();
    let mut next: u64 = start;
    let mut from: usize = 0;
    proof {
        assert(nodes_view(nodes@) =~= Seq::<LevelNodeView>::empty());
        assert(begun + done =~= begun);
        if let Some(level) = all {
            assert(nodes_view(nodes@) + level.nodes =~= level.nodes);
            assert(done + level.pages =~= level.pages);
        }
    }
    while from < items.len()
        invariant
            from <= items@.len(),
            page_size >= 1024,
            ps == page_size,
            views == items_view(items@),
            pages_view(pages@) == begun + done,
            all == packed(kind, views, 0, ps, start),
            all == level_after(
                nodes_view(nodes@),
                done,
                packed(kind, views, from as int, ps, next),
            ),
        decreases items@.len() - from,
    {
        let mut used: u128 = NODE_HEADER as u128 + items[from].entry.len() as u128;
        let mut end: usize = from + 1;
        while end < items.len() && used + items[end].entry.len() as u128 <= page_size as u128
            invariant
                from < end <= items@.len(),
                views == items_view(items@),
                ps == page_size,
                used <= u64::MAX + NODE_HEADER,
                group_end(views, from as int, ps) == fit_end(views, end as int, used as int, ps),
            decreases items@.len() - end,
        {
            used = used + items[end].entry.len() as u128;
            end = end + 1;
        }
        assert(end == group_end(views, from as int, ps));
        let payload: Vec<u8> = concat_entries(items, from, end);
        let bytes: Vec<u8> = match encode_node(kind, end - from, &payload, page_size, next) {
            Ok(bytes) => bytes,
            Err(e) => return Err(e),
        };
        proof {
            lemma_span_covers(payload@.len() as int, ps);
        }
        let span: u64 = (bytes.len() / page_size) as u64;
        let after: u64 = match next.checked_add(span) {
            Some(n) => n,
            None => return Err(Error::TooLarge),
        };
        let ghost node = LevelNodeView { first_key: views[from as int].key, page: next };
        let ghost entry = (next, bytes@);
        let ghost old_nodes = nodes_view(nodes@);
        let ghost old_pages = pages_view(pages@);
        nodes.push(LevelNode { first_key: owned(&items[from].key), page: next });
        pages.push((next, bytes));
        proof {
            assert(nodes_view(nodes@) =~= old_nodes.push(node));
            assert(pages_view(pages@) =~= old_pages.push(entry));
            let was = done;
            done = done.push(entry);
            assert(pages_view(pages@) =~= begun + done);
            if let Some(rest) = packed(kind, views, end as int, ps, after) {
                assert(old_nodes + (seq![node] + rest.nodes) =~= nodes_view(nodes@) + rest.nodes);
                assert(was + (seq![entry] + rest.pages) =~= done + rest.pages);
            }
        }
        next = after;
        from = end;
    }
    proof {
        assert(nodes_view(nodes@) + Seq::<LevelNodeView>::empty() =~= nodes_view(nodes@));
        assert(done + Seq::<(u64, Seq<u8>)>::empty() =~= done);
    }
    Ok((nodes, next))
}

/// The leaf item of a record.
pub open spec fn leaf_item(r: RecordView) -> ItemView {
    ItemView {
        key: r.key,
        entry: bytes::le_of(r.key.len(), 4) + bytes::le_of(r.value.len(), 8) + r.key + r.value,
    }
}

/// The branch item of a node.
pub open spec fn branch_item(n: LevelNodeView) -> ItemView {
    ItemView {
        key: n.first_key,
        entry: bytes::le_of(n.first_key.len(), 4) + bytes::le_of(n.page as nat, 8) + n.first_key,
    }
}

pub open spec fn leaf_items(records: Seq<RecordView>) -> Seq<ItemView> {
    records.map_values(|r: RecordView| leaf_item(r))
}

pub open spec fn branch_items(nodes: Seq<LevelNodeView>) -> Seq<ItemView> {
    nodes.map_values(|n: LevelNodeView| branch_item(n))
}

/// The levels above `level`, packed from page `next` on. A level that does not
/// get shorter has keys that are too large for the page size: no two of them
/// fit in one page.
pub open spec fn upper_levels(level: Seq<LevelNodeView>, page_size: int, next: u64) -> Option<
    TreeView,
>
    decreases level.len(),
{
    if level.len() <= 1 {
        Some(TreeView { root: level[0].page, high_water: next, pages: Seq::empty() })
    } else {
        match packed(BRANCH, branch_items(level), 0, page_size, next) {
            None => None,
            Some(up) => if up.nodes.len() >= level.len() {
                None
            } else {
                match upper_levels(up.nodes, page_size, up.next) {
                    None => None,
                    Some(top) => Some(TreeView { pages: up.pages + top.pages, ..top }),
                }
            },
        }
    }
}

/// The records a tree is packed from: a tree without records holds one record
/// with an empty key and an empty value.
pub open spec fn filled(records: Seq<RecordView>) -> Seq<RecordView> {
    if records.len() == 0 {
        seq![RecordView { key: Seq::empty(), value: Seq::empty() }]
    } else {
        records
    }
}

/// The tree of some sorted records, packed from page `start` on.
pub open spec fn tree_of(sorted: Seq<RecordView>, page_size: int, start: u64) -> Option<TreeView> {
    let records = filled(sorted);
    if exists|i: int| 0 <= i < records.len() && (#[trigger] records[i]).key.len() > u32::MAX {
        None
    } else {
        match packed(LEAF, leaf_items(records), 0, page_size, start) {
            None => None,
            Some(level) => match upper_levels(level.nodes, page_size, level.next) {
                None => None,
                Some(top) => Some(TreeView { pages: level.pages + top.pages, ..top }),
            },
        }
    }
}

/// Where `key` belongs in sorted records: behind those with a smaller key.
pub open spec fn rank(sorted: Seq<RecordView>, key: Seq<u8>) -> int
    decreases sorted.len(),
{
    if sorted.len() == 0 {
        0
    } else if bytes::lex_lt(sorted.last().key, key) {
        sorted.len() as int
    } else {
        rank(sorted.drop_last(), key)
    }
}

/// Records in the order of their keys.
pub open spec fn in_key_order(records: Seq<RecordView>) -> Seq<RecordView>
    decreases records.len(),
{
    if records.len() == 0 {
        Seq::empty()
    } else {
        let t = in_key_order(records.drop_last());
        t.insert(rank(t, records.last().key), records.last())
    }
}

/// Whether no later record has a smaller key.
pub open spec fn nondecreasing(s: Seq<RecordView>) -> bool {
    forall|i: int, j: int|
        0 <= i < j < s.len() ==> bytes::lex_le((#[trigger] s[i]).key, (#[trigger] s[j]).key)
}

/// Whether every record has a larger key than the one before.
pub open spec fn increasing(s: Seq<RecordView>) -> bool {
    forall|i: int, j: int|
        0 <= i < j < s.len() ==> bytes::lex_lt((#[trigger] s[i]).key, (#[trigger] s[j]).key)
}

/// Whether two records share a key.
pub open spec fn has_duplicate(s: Seq<RecordView>) -> bool {
    exists|i: int, j: int|
        0 <= i < j < s.len() && (#[trigger] s[i]).key == (#[trigger] s[j]).key
}

/// Records by the values they hold.
pub open spec fn records_view(records: Seq<Record>) -> Seq<RecordView> {
    records.map_values(|r: Record| r@)
}

pub open spec fn borrowed_view(records: Seq<&Record>) -> Seq<RecordView> {
    records.map_values(|r: &Record| r@)
}

/// In sorted records, `rank` parts the smaller keys from the others.
proof fn lemma_rank_parts(t: Seq<RecordView>, key: Seq<u8>)
    requires
        nondecreasing(t),
    ensures
        0 <= rank(t, key) <= t.len(),
        forall|i: int| 0 <= i < rank(t, key) ==> bytes::lex_lt((#[trigger] t[i]).key, key),
        forall|i: int|
            rank(t, key) <= i < t.len() ==> !bytes::lex_lt((#[trigger] t[i]).key, key),
    decreases t.len(),
{
    if t.len() > 0 {
        let last = t.last().key;
        if bytes::lex_lt(last, key) {
            assert forall|i: int| 0 <= i < t.len() implies bytes::lex_lt(
                (#[trigger] t[i]).key,
                key,
            ) by {
                if i < t.len() - 1 {
                    assert(bytes::lex_le(t[i].key, t[t.len() - 1].key));
                    if t[i].key != last {
                        bytes::lemma_lex_transitive(t[i].key, last, key);
                    }
                }
            }
        } else {
            let front = t.drop_last();
            assert forall|i: int, j: int| 0 <= i < j < front.len() implies bytes::lex_le(
                (#[trigger] front[i]).key,
                (#[trigger] front[j]).key,
            ) by {
                assert(bytes::lex_le(t[i].key, t[j].key));
            }
            lemma_rank_parts(front, key);
            let p = rank(front, key);
            assert forall|i: int| 0 <= i < p implies bytes::lex_lt((#[trigger] t[i]).key, key) by {
                assert(bytes::lex_lt(front[i].key, key));
            }
            assert forall|i: int| p <= i < t.len() implies !bytes::lex_lt(
                (#[trigger] t[i]).key,
                key,
            ) by {
                if i < front.len() {
                    assert(!bytes::lex_lt(front[i].key, key));
                }
            }
        }
    }
}

proof fn lemma_insert_keeps_order(t: Seq<RecordView>, x: RecordView)
    requires
        nondecreasing(t),
    ensures
        nondecreasing(t.insert(rank(t, x.key), x)),
{
    let p = rank(t, x.key);
    lemma_rank_parts(t, x.key);
    let u = t.insert(p, x);
    assert forall|i: int, j: int| 0 <= i < j < u.len() implies bytes::lex_le(
        (#[trigger] u[i]).key,
        (#[trigger] u[j]).key,
    ) by {
        if j < p {
            assert(u[i] == t[i] && u[j] == t[j]);
        } else if j == p {
            assert(u[i] == t[i]);
        } else if i < p {
            assert(u[i] == t[i] && u[j] == t[j - 1]);
            assert(bytes::lex_le(t[i].key, t[j - 1].key));
        } else if i == p {
            assert(u[j] == t[j - 1]);
            assert(!bytes::lex_lt(t[j - 1].key, x.key));
            bytes::lemma_lex_total(t[j - 1].key, x.key);
        } else {
            assert(u[i] == t[i - 1] && u[j] == t[j - 1]);
        }
    }
}

/// Putting records in key order sorts them and keeps each of them, as often as
/// it occurs.
pub proof fn law_key_order_sorts(records: Seq<RecordView>)
    ensures
        nondecreasing(in_key_order(records)),
        in_key_order(records).to_multiset() == records.to_multiset(),
        in_key_order(records).len() == records.len(),
    decreases records.len(),
{
    if records.len() > 0 {
        let front = records.drop_last();
        let x = records.last();
        law_key_order_sorts(front);
        let t = in_key_order(front);
        lemma_rank_parts(t, x.key);
        lemma_insert_keeps_order(t, x);
        vstd::seq_lib::to_multiset_insert(t, rank(t, x.key), x);
        vstd::seq_lib::to_multiset_build(front, x);
        assert(front.push(x) =~= records);
    } else {
        assert(records =~= Seq::<RecordView>::empty());
    }
}

/// The only position that parts the smaller keys from the others is `rank`.
proof fn lemma_rank_unique(t: Seq<RecordView>, key: Seq<u8>, p: int)
    requires
        nondecreasing(t),
        0 <= p <= t.len(),
        p > 0 ==> bytes::lex_lt(t[p - 1].key, key),
        p < t.len() ==> !bytes::lex_lt(t[p].key, key),
    ensures
        rank(t, key) == p,
{
    lemma_rank_parts(t, key);
}

/// Finds where `key` belongs in sorted records.
fn position(sorted: &Vec<&Record>, key: &[u8]) -> (r: usize)
    requires
        nondecreasing(borrowed_view(sorted@)),
    ensures
        r == rank(borrowed_view(sorted@), key@),
{
    let ghost t = borrowed_view(sorted@);
    let mut low: usize = 0;
    let mut high: usize = sorted.len();
    if high > 0 && less(&sorted[high - 1].key, key) {
        proof {
            lemma_rank_unique(t, key@, high as int);
        }
        return high;
    }
    while low < high
        invariant
            t == borrowed_view(sorted@),
            nondecreasing(t),
            low <= high <= t.len(),
            low > 0 ==> bytes::lex_lt(t[low - 1].key, key@),
            high < t.len() ==> !bytes::lex_lt(t[high as int].key, key@),
        decreases high - low,
    {
        let mid: usize = low + (high - low) / 2;
        if less(&sorted[mid].key, key) {
            low = mid + 1;
        } else {
            high = mid;
        }
    }
    proof {
        lemma_rank_unique(t, key@, low as int);
    }
    low
}

/// Sorts records by key. Where two share a key, there is no such order.
fn sort_records(records: &[Record]) -> (r: Option<Vec<&Record>>)
    ensures
        match r {
            Some(sorted) => !has_duplicate(records_view(records@)) && borrowed_view(sorted@)
                == in_key_order(records_view(records@)),
            None => has_duplicate(records_view(records@)),
        },
{
    let ghost views = records_view(records@);
    let mut sorted: Vec<&Record> = Vec::new();
    let mut i: usize = 0;
    proof {
        assert(borrowed_view(sorted@) =~= in_key_order(views.take(0)));
    }
    while i < records.len()
        invariant
            i <= records@.len(),
            views == records_view(records@),
            borrowed_view(sorted@) == in_key_order(views.take(i as int)),
            !has_duplicate(views.take(i as int)),
        decreases records@.len() - i,
    {
        let record: &Record = &records[i];
        let ghost t = borrowed_view(sorted@);
        let ghost front = views.take(i as int);
        proof {
            law_key_order_sorts(front);
            lemma_rank_parts(t, record.key@);
        }
        let at: usize = position(&sorted, &record.key);
        if at < sorted.len() && same(&sorted[at].key, &record.key) {
            proof {
                let found = t[at as int];
                assert(t.contains(found));
                vstd::seq_lib::to_multiset_contains(t, found);
                vstd::seq_lib::to_multiset_contains(front, found);
                let j = choose|j: int| 0 <= j < front.len() && front[j] == found;
                assert(views[j].key == views[i as int].key);
            }
            return None;
        }
        sorted.insert(at, record);
        proof {
            let x = record@;
            assert(borrowed_view(sorted@) =~= t.insert(at as int, x));
            let now = views.take(i + 1);
            assert(now.drop_last() =~= front);
            assert(now.last() == x);
            assert(!has_duplicate(now)) by {
                if has_duplicate(now) {
                    let (a, b) = choose|a: int, b: int|
                        0 <= a < b < now.len() && (#[trigger] now[a]).key == (#[trigger] now[b]).key;
                    if b < i {
                        assert(front[a].key == front[b].key);
                    } else {
                        let y = front[a];
                        assert(front.contains(y));
                        vstd::seq_lib::to_multiset_contains(t, y);
                        vstd::seq_lib::to_multiset_contains(front, y);
                        let q = choose|q: int| 0 <= q < t.len() && t[q] == y;
                        bytes::lemma_lex_irreflexive(x.key);
                        if q > at {
                            assert(bytes::lex_le(t[at as int].key, t[q].key));
                            bytes::lemma_lex_total(t[at as int].key, x.key);
                        }
                    }
                }
            }
        }
        i = i + 1;
    }
    assert(views.take(i as int) =~= views);
    Some(sorted)
}

/// What packing `records` gives.
pub open spec fn built(records: Seq<RecordView>, page_size: int, start: u64) -> Result<
    TreeView,
    Error,
> {
    if !page_size_ok(page_size) {
        Err(Error::Corrupt("invalid page size"))
    } else if has_duplicate(records) {
        Err(Error::Corrupt("duplicate tree key"))
    } else {
        match tree_of(in_key_order(records), page_size, start) {
            None => Err(Error::TooLarge),
            Some(tree) => Ok(tree),
        }
    }
}

/// A result of packing by the values it holds.
pub open spec fn built_view(r: Result<BuiltTree, Error>) -> Result<TreeView, Error> {
    match r {
        Ok(tree) => Ok(tree@),
        Err(e) => Err(e),
    }
}

/// Makes the leaf item of a record whose key fits.
fn make_leaf_item(key: &[u8], value: &[u8]) -> (r: Item)
    requires
        key@.len() <= u32::MAX,
    ensures
        r@ == leaf_item(RecordView { key: key@, value: value@ }),
{
    let mut entry: Vec<u8> = Vec::new();
    push_u32_le(&mut entry, key.len() as u32);
    push_u64_le(&mut entry, value.len() as u64);
    append(&mut entry, key);
    append(&mut entry, value);
    Item { key: owned(key), entry }
}

/// Makes the leaf items of sorted records.
fn make_leaf_items(sorted: &Vec<&Record>) -> (r: Result<Vec<Item>, Error>)
    ensures
        ({
            let records = filled(borrowed_view(sorted@));
            match r {
                Ok(items) => items_view(items@) == leaf_items(records) && forall|i: int|
                    0 <= i < records.len() ==> (#[trigger] records[i]).key.len() <= u32::MAX,
                Err(e) => e == Error::TooLarge && exists|i: int|
                    0 <= i < records.len() && (#[trigger] records[i]).key.len() > u32::MAX,
            }
        }),
{
    let ghost records = filled(borrowed_view(sorted@));
    let mut items: Vec<Item> = Vec::new();
    if sorted.len() == 0 {
        let nothing: Vec<u8> = Vec::new();
        items.push(make_leaf_item(&nothing, &nothing));
        assert(items_view(items@) =~= leaf_items(records));
        return Ok(items);
    }
    let mut i: usize = 0;
    assert(items_view(items@) =~= leaf_items(records.take(0)));
    while i < sorted.len()
        invariant
            i <= sorted@.len() == records.len(),
            sorted@.len() > 0,
            records == borrowed_view(sorted@),
            items_view(items@) == leaf_items(records.take(i as int)),
            forall|j: int| 0 <= j < i ==> (#[trigger] records[j]).key.len() <= u32::MAX,
        decreases sorted@.len() - i,
    {
        let ghost was = items_view(items@);
        if sorted[i].key.len() as u64 > u32::MAX as u64 {
            assert(filled(borrowed_view(sorted@))[i as int].key.len() > u32::MAX);
            return Err(Error::TooLarge);
        }
        let item: Item = make_leaf_item(&sorted[i].key, &sorted[i].value);
        let ghost view = item@;
        items.push(item);
        proof {
            assert(view == leaf_item(records[i as int]));
            assert(items_view(items@) =~= was.push(view));
            assert(leaf_items(records.take(i + 1)) =~= leaf_items(records.take(i as int)).push(
                view,
            ));
        }
        i = i + 1;
    }
    assert(records.take(i as int) =~= records);
    Ok(items)
}

/// Makes the branch items of a level.
fn make_branch_items(nodes: &Vec<LevelNode>) -> (r: Vec<Item>)
    requires
        forall|i: int| 0 <= i < nodes@.len() ==> (#[trigger] nodes@[i]).first_key@.len()
            <= u32::MAX,
    ensures
        items_view(r@) == branch_items(nodes_view(nodes@)),
{
    let ghost views = nodes_view(nodes@);
    let mut items: Vec<Item> = Vec::new();
    let mut i: usize = 0;
    assert(items_view(items@) =~= branch_items(views.take(0)));
    while i < nodes.len()
        invariant
            i <= nodes@.len(),
            views == nodes_view(nodes@),
            items_view(items@) == branch_items(views.take(i as int)),
            forall|i: int| 0 <= i < nodes@.len() ==> (#[trigger] nodes@[i]).first_key@.len()
                <= u32::MAX,
        decreases nodes@.len() - i,
    {
        let ghost was = items_view(items@);
        let key: &Vec<u8> = &nodes[i].first_key;
        let mut entry: Vec<u8> = Vec::new();
        push_u32_le(&mut entry, key.len() as u32);
        push_u64_le(&mut entry, nodes[i].page);
        append(&mut entry, key);
        let item: Item = Item { key: owned(key), entry };
        let ghost view = item@;
        items.push(item);
        proof {
            assert(view == branch_item(views[i as int]));
            assert(items_view(items@) =~= was.push(view));
            assert(branch_items(views.take(i + 1)) =~= branch_items(views.take(i as int)).push(
                view,
            ));
        }
        i = i + 1;
    }
    assert(views.take(i as int) =~= views);
    items
}

/// The first keys of packed nodes are keys of their items.
pub proof fn lemma_packed_keys(
    kind: u8,
    items: Seq<ItemView>,
    from: int,
    page_size: int,
    next: u64,
    bound: nat,
)
    requires
        0 <= from,
        packed(kind, items, from, page_size, next) is Some,
        forall|i: int| 0 <= i < items.len() ==> (#[trigger] items[i]).key.len() <= bound,
    ensures
        forall|i: int|
            0 <= i < packed(kind, items, from, page_size, next)->0.nodes.len() ==> (
            #[trigger] packed(kind, items, from, page_size, next)->0.nodes[i]).first_key.len()
                <= bound,
        from < items.len() ==> packed(kind, items, from, page_size, next)->0.nodes.len() > 0,
    decreases items.len() - from,
{
    if from < items.len() {
        let end = group_end(items, from, page_size);
        lemma_fit_end(items, from + 1, NODE_HEADER + items[from].entry.len(), page_size);
        let payload = entries_of(items.subrange(from, end));
        let after = (next + span_of(payload.len() as int, page_size)) as u64;
        lemma_packed_keys(kind, items, end, page_size, after, bound);
        let rest = packed(kind, items, end, page_size, after)->0.nodes;
        let all = packed(kind, items, from, page_size, next)->0.nodes;
        assert forall|i: int| 0 <= i < all.len() implies (#[trigger] all[i]).first_key.len()
            <= bound by {
            if i > 0 {
                assert(all[i] == rest[i - 1]);
            }
        }
    }
}

/// Packs records into a tree, from page `start` on.
///
/// A key or a page number that does not fit the format is `TooLarge`; so are
/// keys of which no two fit in one page.
pub fn build_tree(records: &[Record], page_size: usize, start: u64) -> (r: Result<BuiltTree, Error>)
    ensures
        built_view(r) == built(records_view(records@), page_size as int, start),
{
    if page_size < 1024 || !page::is_power_of_two(page_size) {
        return Err(Error::Corrupt("invalid page size"));
    }
    let sorted: Vec<&Record> = match sort_records(records) {
        Some(sorted) => sorted,
        None => return Err(Error::Corrupt("duplicate tree key")),
    };
    let ghost recs = filled(borrowed_view(sorted@));
    let ghost ps = page_size as int;
    let items: Vec<Item> = match make_leaf_items(&sorted) {
        Ok(items) => items,
        Err(e) => return Err(e),
    };
    let mut pages: Vec<(u64, Vec<u8>)> = Vec::new();
    proof {
        assert(pages_view(pages@) =~= Seq::<(u64, Seq<u8>)>::empty());
        assert forall|i: int| 0 <= i < items@.len() implies (#[trigger] items_view(
            items@,
        )[i]).key.len() <= u32::MAX by {
            assert(items_view(items@)[i] == leaf_item(recs[i]));
        }
    }
    let (mut level, mut next): (Vec<LevelNode>, u64) = match pack_level(
        LEAF,
        &items,
        page_size,
        start,
        &mut pages,
    ) {
        Ok(done) => done,
        Err(e) => return Err(e),
    };
    let ghost lowest = packed(LEAF, leaf_items(recs), 0, ps, start)->0;
    let ghost top = upper_levels(lowest.nodes, ps, lowest.next);
    let ghost mut upper: Seq<(u64, Seq<u8>)> = Seq::empty();
    proof {
        lemma_packed_keys(LEAF, leaf_items(recs), 0, ps, start, u32::MAX as nat);
        lemma_key_bound(level@, u32::MAX as nat);
        assert(pages_view(pages@) =~= lowest.pages + upper);
        if let Some(t) = top {
            assert(upper + t.pages =~= t.pages);
        }
    }
    while level.len() > 1
        invariant
            page_size >= 1024,
            ps == page_size,
            level@.len() > 0,
            forall|i: int| 0 <= i < level@.len() ==> (#[trigger] level@[i]).first_key@.len()
                <= u32::MAX,
            pages_view(pages@) == lowest.pages + upper,
            top == (match upper_levels(nodes_view(level@), ps, next) {
                None => None,
                Some(t) => Some(TreeView { pages: upper + t.pages, ..t }),
            }),
            built(records_view(records@), ps, start) == (match top {
                None => Err(Error::TooLarge),
                Some(t) => Ok(TreeView { pages: lowest.pages + t.pages, ..t }),
            }),
        decreases level@.len(),
    {
        let above: Vec<Item> = make_branch_items(&level);
        let ghost views = nodes_view(level@);
        proof {
            assert forall|i: int| 0 <= i < above@.len() implies (#[trigger] items_view(
                above@,
            )[i]).key.len() <= u32::MAX by {
                assert(items_view(above@)[i] == branch_item(views[i]));
                assert(views[i] == level@[i]@);
            }
        }
        let (parent, after): (Vec<LevelNode>, u64) = match pack_level(
            BRANCH,
            &above,
            page_size,
            next,
            &mut pages,
        ) {
            Ok(done) => done,
            Err(e) => return Err(e),
        };
        if parent.len() >= level.len() {
            return Err(Error::TooLarge);
        }
        proof {
            let up = packed(BRANCH, branch_items(views), 0, ps, next)->0;
            lemma_packed_keys(BRANCH, branch_items(views), 0, ps, next, u32::MAX as nat);
            lemma_key_bound(parent@, u32::MAX as nat);
            assert(nodes_view(parent@) == up.nodes);
            let was = upper;
            upper = upper + up.pages;
            assert(pages_view(pages@) =~= lowest.pages + upper);
            if let Some(t) = upper_levels(up.nodes, ps, up.next) {
                assert(was + (up.pages + t.pages) =~= upper + t.pages);
            }
        }
        level = parent;
        next = after;
    }
    proof {
        assert(nodes_view(level@)[0] == level@[0]@);
        assert(upper + Seq::<(u64, Seq<u8>)>::empty() =~= upper);
    }
    Ok(BuiltTree { root: level[0].page, high_water: next, pages })
}

proof fn lemma_key_bound(nodes: Seq<LevelNode>, bound: nat)
    requires
        forall|i: int|
            0 <= i < nodes_view(nodes).len() ==> (#[trigger] nodes_view(nodes)[i]).first_key.len()
                <= bound,
    ensures
        forall|i: int| 0 <= i < nodes.len() ==> (#[trigger] nodes[i]).first_key@.len() <= bound,
{
    assert forall|i: int| 0 <= i < nodes.len() implies (#[trigger] nodes[i]).first_key@.len()
        <= bound by {
        assert(nodes_view(nodes)[i] == nodes[i]@);
    }
}

/// Whether the pages of a list lie from `lo` up to `hi`, each with all the
/// pages it covers.
pub open spec fn pages_between(
    pages: Seq<(u64, Seq<u8>)>,
    page_size: int,
    lo: int,
    hi: int,
) -> bool {
    forall|i: int|
        0 <= i < pages.len() ==> lo <= (#[trigger] pages[i]).0 && pages[i].0 * page_size
            + pages[i].1.len() <= hi * page_size && pages[i].0 < hi
}

proof fn lemma_between_add(
    a: Seq<(u64, Seq<u8>)>,
    b: Seq<(u64, Seq<u8>)>,
    page_size: int,
    lo: int,
    mid: int,
    hi: int,
)
    requires
        pages_between(a, page_size, lo, mid),
        pages_between(b, page_size, mid, hi),
        lo <= mid <= hi,
        page_size >= 0,
    ensures
        pages_between(a + b, page_size, lo, hi),
{
    assert(mid * page_size <= hi * page_size) by (nonlinear_arith)
        requires
            mid <= hi,
            page_size >= 0,
    ;
    let c = a + b;
    assert forall|i: int| 0 <= i < c.len() implies lo <= (#[trigger] c[i]).0 && c[i].0 * page_size
        + c[i].1.len() <= hi * page_size && c[i].0 < hi by {
        if i < a.len() {
            assert(c[i] == a[i]);
        } else {
            assert(c[i] == b[i - a.len()]);
        }
    }
}

pub proof fn lemma_packed_pages(
    kind: u8,
    items: Seq<ItemView>,
    from: int,
    page_size: int,
    next: u64,
)
    requires
        0 <= from,
        page_size >= 1024,
        packed(kind, items, from, page_size, next) is Some,
    ensures
        ({
            let level = packed(kind, items, from, page_size, next)->0;
            pages_between(level.pages, page_size, next as int, level.next as int) && next
                <= level.next
        }),
    decreases items.len() - from,
{
    if from < items.len() {
        let end = group_end(items, from, page_size);
        lemma_fit_end(items, from + 1, NODE_HEADER + items[from].entry.len(), page_size);
        let payload = entries_of(items.subrange(from, end));
        let count = (end - from) as nat;
        let span = span_of(payload.len() as int, page_size);
        let after = (next + span) as u64;
        lemma_span_covers(payload.len() as int, page_size);
        lemma_packed_pages(kind, items, end, page_size, after);
        let level = packed(kind, items, from, page_size, next)->0;
        let rest = packed(kind, items, end, page_size, after)->0;
        let w = node_bytes(kind, count, payload, page_size, next);
        lemma_node_header_len(kind, count, payload, page_size, next);
        assert(w.len() == span * page_size);
        assert(next * page_size + span * page_size == (next + span) * page_size)
            by (nonlinear_arith);
        let first = seq![(next, w)];
        assert(pages_between(first, page_size, next as int, after as int));
        lemma_between_add(
            first,
            rest.pages,
            page_size,
            next as int,
            after as int,
            rest.next as int,
        );
    }
}

proof fn lemma_upper_pages(level: Seq<LevelNodeView>, page_size: int, next: u64)
    requires
        page_size >= 1024,
        upper_levels(level, page_size, next) is Some,
    ensures
        ({
            let top = upper_levels(level, page_size, next)->0;
            pages_between(top.pages, page_size, next as int, top.high_water as int) && next
                <= top.high_water
        }),
    decreases level.len(),
{
    if level.len() > 1 {
        let items = branch_items(level);
        let up = packed(BRANCH, items, 0, page_size, next)->0;
        lemma_packed_pages(BRANCH, items, 0, page_size, next);
        lemma_upper_pages(up.nodes, page_size, up.next);
        let top = upper_levels(up.nodes, page_size, up.next)->0;
        lemma_between_add(
            up.pages,
            top.pages,
            page_size,
            next as int,
            up.next as int,
            top.high_water as int,
        );
    }
}

/// A tree lies between the page it is packed from and its high-water mark.
pub proof fn law_tree_stays_between(sorted: Seq<RecordView>, page_size: int, start: u64)
    requires
        page_size >= 1024,
        tree_of(sorted, page_size, start) is Some,
    ensures
        ({
            let t = tree_of(sorted, page_size, start)->0;
            pages_between(t.pages, page_size, start as int, t.high_water as int) && start
                <= t.high_water
        }),
{
    let items = leaf_items(filled(sorted));
    let level = packed(LEAF, items, 0, page_size, start)->0;
    lemma_packed_pages(LEAF, items, 0, page_size, start);
    lemma_upper_pages(level.nodes, page_size, level.next);
    let top = upper_levels(level.nodes, page_size, level.next)->0;
    lemma_between_add(
        level.pages,
        top.pages,
        page_size,
        start as int,
        level.next as int,
        top.high_water as int,
    );
}

/// A tree without records is one leaf.
pub proof fn law_empty_tree(start: u64)
    requires
        start < u64::MAX,
    ensures
        ({
            let t = tree_of(Seq::empty(), 4096, start);
            t is Some && t->0.root == start && t->0.high_water == start + 1
        }),
{
    let records = filled(Seq::empty());
    let items = leaf_items(records);
    bytes::lemma_le_of_len(0, 4);
    bytes::lemma_le_of_len(0, 8);
    assert(items[0].entry.len() == 12);
    assert(group_end(items, 0, 4096) == 1);
    assert(items.subrange(0, 1) =~= items);
    assert(entries_of(items.drop_last()) == Seq::<u8>::empty()) by {
        assert(items.drop_last().len() == 0);
    }
    assert(entries_of(items).len() == 12);
    assert(packed(LEAF, items, 1, 4096, (start + 1) as u64) == Some(
        LevelView { nodes: Seq::empty(), pages: Seq::empty(), next: (start + 1) as u64 },
    ));
    let level = packed(LEAF, items, 0, 4096, start);
    assert(level is Some);
    assert(level->0.nodes.len() == 1);
    assert(level->0.nodes[0].page == start);
    assert(upper_levels(level->0.nodes, 4096, level->0.next)->0.root == start);
    assert(!exists|i: int|
        0 <= i < records.len() && (#[trigger] records[i]).key.len() > u32::MAX);
}

} // verus!
