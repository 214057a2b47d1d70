//! Reading a database file: the newer meta page, the tree under its root, and
//! the buckets and entries that the tree's records stand for.

use crate::assoc;
use crate::bytes::{self, less, order, u32_le_at, u64_le_at, Order};
use crate::db::path::{self, child_path, parent_path};
use crate::db::state::{self, BucketModel, Model};
use crate::error::Error;
use crate::page::{self, Meta, Node, NodeView, RecordView, Slice, LEAF};
use vstd::prelude::*;
use vstd::slice::slice_subrange;

verus! {

/// The page size of a database file.
pub const PAGE_SIZE: usize = 4096;

/// The newer of two meta pages, as far as they are valid.
pub open spec fn newer(first: Result<Meta, Error>, second: Result<Meta, Error>) -> Option<Meta> {
    match (first, second) {
        (Ok(left), Ok(right)) => if left.txid >= right.txid {
            Some(left)
        } else {
            Some(right)
        },
        (Ok(left), Err(_)) => Some(left),
        (Err(_), Ok(right)) => Some(right),
        (Err(_), Err(_)) => None,
    }
}

/// The meta page that counts.
pub open spec fn selected_meta(image: Seq<u8>) -> Result<Meta, Error> {
    if image.len() < 2 * PAGE_SIZE {
        Err(Error::Corrupt("meta pages are truncated"))
    } else {
        match newer(
            page::meta_of(image.subrange(0, PAGE_SIZE as int)),
            page::meta_of(image.subrange(PAGE_SIZE as int, 2 * PAGE_SIZE)),
        ) {
            None => Err(Error::Corrupt("both meta pages are invalid")),
            Some(meta) => if meta.page_size != PAGE_SIZE {
                Err(Error::Corrupt("unsupported page size"))
            } else {
                Ok(meta)
            },
        }
    }
}

/// Picks the meta page that counts.
pub fn select_meta(image: &[u8]) -> (r: Result<Meta, Error>)
    ensures
        r == selected_meta(image@),
{
    if image.len() < 2 * PAGE_SIZE {
        return Err(Error::Corrupt("meta pages are truncated"));
    }
    let first: Result<Meta, Error> = Meta::decode(slice_subrange(image, 0, PAGE_SIZE));
    let second: Result<Meta, Error> = Meta::decode(
        slice_subrange(image, PAGE_SIZE, 2 * PAGE_SIZE),
    );
    let meta: Meta = match (first, second) {
        (Ok(left), Ok(right)) => {
            if left.txid >= right.txid {
                left
            } else {
                right
            }
        },
        (Ok(left), Err(_)) => left,
        (Err(_), Ok(right)) => right,
        (Err(_), Err(_)) => return Err(Error::Corrupt("both meta pages are invalid")),
    };
    if meta.page_size != PAGE_SIZE as u32 {
        return Err(Error::Corrupt("unsupported page size"));
    }
    Ok(meta)
}

/// How many of the first `n` pages have not been visited.
pub open spec fn unvisited(visited: Set<u64>, n: int) -> nat
    decreases n,
{
    if n <= 0 {
        0
    } else {
        unvisited(visited, n - 1) + if visited.contains((n - 1) as u64) {
            0nat
        } else {
            1nat
        }
    }
}

/// Visiting a page leaves fewer.
pub proof fn lemma_unvisited(visited: Set<u64>, more: Set<u64>, n: int)
    requires
        visited.subset_of(more),
        n <= u64::MAX,
    ensures
        unvisited(more, n) <= unvisited(visited, n),
        forall|page: u64|
            page < n && !visited.contains(page) && #[trigger] more.contains(page) ==> unvisited(
                more,
                n,
            ) < unvisited(visited, n),
    decreases n,
{
    if n > 0 {
        lemma_unvisited(visited, more, n - 1);
    }
}

/// The pages from `page` on that a node covers.
pub open spec fn covered(page: u64, span: nat) -> Set<u64> {
    Set::new(|p: u64| page <= p < page + span)
}

/// Where the records of a leaf stand in the file.
pub open spec fn moved(slots: Seq<(Slice, Slice)>, by: int) -> Seq<(Slice, Slice)> {
    slots.map_values(
        |s: (Slice, Slice)|
            (
                Slice { offset: (s.0.offset + by) as usize, len: s.0.len },
                Slice { offset: (s.1.offset + by) as usize, len: s.1.len },
            ),
    )
}

/// The children of a branch.
pub open spec fn children(slots: Seq<(Slice, u64)>) -> Seq<u64> {
    slots.map_values(|s: (Slice, u64)| s.1)
}

/// The node at `page`, where it can be visited.
pub open spec fn node_at(image: Seq<u8>, meta: Meta, page: u64, visited: Set<u64>) -> Result<
    NodeView,
    Error,
> {
    if page < 2 || page >= meta.high_water || visited.contains(page) {
        Err(Error::Corrupt("invalid or repeated tree page"))
    } else {
        match page::node_of(image.skip(page * meta.page_size), meta.page_size as nat) {
            Err(e) => Err(e),
            Ok(node) => if node.page != page || page + node.span > meta.high_water {
                Err(Error::Corrupt("node page identity mismatch"))
            } else if exists|p: u64|
                page < p < page + node.span && #[trigger] visited.contains(p) {
                Err(Error::Corrupt("overlapping tree pages"))
            } else {
                Ok(node)
            },
        }
    }
}

/// The records under the pages of `todo`, in the order of a walk that goes
/// down before it goes on. No page is visited twice.
pub open spec fn walk(image: Seq<u8>, meta: Meta, todo: Seq<u64>, visited: Set<u64>) -> Result<
    Seq<(Slice, Slice)>,
    Error,
>
    decreases unvisited(visited, meta.high_water as int),
    via walk_decreases
{
    if todo.len() == 0 {
        Ok(Seq::empty())
    } else {
        let page = todo[0];
        let rest = todo.drop_first();
        match node_at(image, meta, page, visited) {
            Err(e) => Err(e),
            Ok(node) => {
                let seen = visited.union(covered(page, node.span)).insert(page);
                if node.kind == LEAF {
                    match node.leaf_slots() {
                        Err(e) => Err(e),
                        Ok(slots) => page::joined(
                            moved(slots, page * meta.page_size),
                            walk(image, meta, rest, seen),
                        ),
                    }
                } else {
                    match node.branch_slots() {
                        Err(e) => Err(e),
                        Ok(slots) => if slots.len() == 0 {
                            Err(Error::Corrupt("empty branch node"))
                        } else {
                            walk(image, meta, children(slots) + rest, seen)
                        },
                    }
                }
            },
        }
    }
}

#[via_fn]
proof fn walk_decreases(image: Seq<u8>, meta: Meta, todo: Seq<u64>, visited: Set<u64>) {
    if todo.len() > 0 {
        let page = todo[0];
        match node_at(image, meta, page, visited) {
            Err(e) => {},
            Ok(node) => {
                let seen = visited.union(covered(page, node.span)).insert(page);
                lemma_unvisited(visited, seen, meta.high_water as int);
                assert(seen.contains(page));
            },
        }
    }
}

/// Whether a record's slices lie inside a file, with a key whose length fits
/// its field.
pub open spec fn slot_within(slot: (Slice, Slice), len: int) -> bool {
    slot.0.within(len) && slot.1.within(len) && slot.0.len <= u32::MAX
}

proof fn lemma_leaf_slots_within(b: Seq<u8>, cursor: int, n: nat, end: int)
    requires
        0 <= cursor,
        end <= b.len(),
        page::leaf_slots_at(b, cursor, n, end) is Ok,
    ensures
        forall|i: int|
            0 <= i < page::leaf_slots_at(b, cursor, n, end)->Ok_0.len() ==> slot_within(
                #[trigger] page::leaf_slots_at(b, cursor, n, end)->Ok_0[i],
                b.len() as int,
            ),
    decreases n,
{
    if n > 0 {
        let first = page::leaf_slot_at(b, cursor, end)->Ok_0;
        bytes::lemma_le_inverse(b.subrange(cursor, cursor + 4));
        bytes::lemma_pow256_widths();
        let next = first.1.offset + first.1.len;
        lemma_leaf_slots_within(b, next, (n - 1) as nat, end);
        let rest = page::leaf_slots_at(b, next, (n - 1) as nat, end)->Ok_0;
        let all = page::leaf_slots_at(b, cursor, n, end)->Ok_0;
        assert forall|i: int| 0 <= i < all.len() implies slot_within(
            #[trigger] all[i],
            b.len() as int,
        ) by {
            if i > 0 {
                assert(all[i] == rest[i - 1]);
            }
        }
    }
}

/// What a walk finds lies inside the file.
pub proof fn lemma_walk_within(image: Seq<u8>, meta: Meta, todo: Seq<u64>, visited: Set<u64>)
    requires
        meta.high_water * meta.page_size <= image.len() <= usize::MAX,
        walk(image, meta, todo, visited) is Ok,
    ensures
        forall|i: int|
            0 <= i < walk(image, meta, todo, visited)->Ok_0.len() ==> slot_within(
                #[trigger] walk(image, meta, todo, visited)->Ok_0[i],
                image.len() as int,
            ),
    decreases unvisited(visited, meta.high_water as int),
{
    if todo.len() > 0 {
        let page = todo[0];
        let rest = todo.drop_first();
        let node = node_at(image, meta, page, visited)->Ok_0;
        let seen = visited.union(covered(page, node.span)).insert(page);
        lemma_unvisited(visited, seen, meta.high_water as int);
        assert(seen.contains(page));
        let at = page * meta.page_size;
        lemma_page_inside(page as int, meta.high_water as int, meta.page_size as int);
        if node.kind == LEAF {
            lemma_walk_within(image, meta, rest, seen);
            lemma_leaf_slots_within(node.block, 40, node.count, node.end());
            let slots = node.leaf_slots()->Ok_0;
            let here = moved(slots, at);
            let tail = walk(image, meta, rest, seen)->Ok_0;
            let all = walk(image, meta, todo, visited)->Ok_0;
            assert(all == here + tail);
            assert forall|i: int| 0 <= i < all.len() implies slot_within(
                #[trigger] all[i],
                image.len() as int,
            ) by {
                if i < here.len() {
                    assert(slot_within(slots[i], node.block.len() as int));
                } else {
                    assert(all[i] == tail[i - here.len()]);
                }
            }
        } else {
            lemma_walk_within(image, meta, children(node.branch_slots()->Ok_0) + rest, seen);
        }
    }
}

/// A page below the high-water mark begins inside the committed part.
pub proof fn lemma_page_inside(page: int, high_water: int, page_size: int)
    requires
        0 <= page < high_water,
        0 <= page_size,
    ensures
        0 <= page * page_size,
        page * page_size + page_size <= high_water * page_size,
{
    assert(0 <= page * page_size) by (nonlinear_arith)
        requires
            0 <= page,
            0 <= page_size,
    ;
    assert(page * page_size + page_size <= high_water * page_size) by (nonlinear_arith)
        requires
            page + 1 <= high_water,
            0 <= page_size,
    ;
}

/// Which pages a bitmap marks.
pub open spec fn marked(bits: Seq<bool>) -> Set<u64> {
    Set::new(|p: u64| p < bits.len() && bits[p as int])
}

/// Marks the pages a node covers. Where one behind the first is marked
/// already, it says so.
fn mark(bits: &mut Vec<bool>, page: usize, span: usize) -> (r: bool)
    requires
        page + span <= old(bits)@.len(),
        span > 0,
    ensures
        final(bits)@.len() == old(bits)@.len(),
        r == !exists|p: u64|
            page < p < page + span && #[trigger] marked(old(bits)@).contains(p),
        r ==> marked(final(bits)@) == marked(old(bits)@).union(
            covered(page as u64, span as nat),
        ).insert(page as u64),
{
    let ghost was = bits@;
    let len: usize = bits.len();
    let mut i: usize = 0;
    while i < span
        invariant
            i <= span,
            was == old(bits)@,
            page + span <= was.len() == bits@.len() == len,
            forall|p: int| 0 <= p < was.len() ==> #[trigger] bits@[p] == (was[p] || page <= p < page
                + i),
            forall|p: int| page < p < page + i ==> !(#[trigger] was[p]),
        decreases span - i,
    {
        let at: usize = page + i;
        if i > 0 && bits[at] {
            assert(marked(was).contains(at as u64));
            return false;
        }
        bits.set(at, true);
        i = i + 1;
    }
    proof {
        assert forall|p: u64| page < p < page + span implies !(#[trigger] marked(was).contains(
            p,
        )) by {
            assert(!was[p as int]);
        }
        assert forall|p: u64| #[trigger] marked(bits@).contains(p) == marked(was).union(
            covered(page as u64, span as nat),
        ).insert(page as u64).contains(p) by {
            if p < was.len() {
                assert(bits@[p as int] == (was[p as int] || page <= p < page + span));
            }
        }
        assert(marked(bits@) =~= marked(was).union(covered(page as u64, span as nat)).insert(
            page as u64,
        ));
    }
    true
}

/// Finds the records under the root of a tree, in order.
fn walk_tree(image: &[u8], meta: Meta) -> (r: Result<Vec<(Slice, Slice)>, Error>)
    requires
        meta.high_water * meta.page_size <= image@.len(),
        meta.page_size > 0,
    ensures
        page::listed(r) == walk(image@, meta, seq![meta.root], Set::empty()),
{
    let len: usize = image.len();
    proof {
        lemma_page_inside(0, meta.high_water as int + 1, meta.page_size as int);
        assert(meta.high_water <= meta.high_water * meta.page_size) by (nonlinear_arith)
            requires
                meta.page_size > 0,
                meta.high_water >= 0,
        ;
    }
    let high_water: usize = meta.high_water as usize;
    let page_size: usize = meta.page_size as usize;
    let mut bits: Vec<bool> = vec![false; high_water];
    let mut stack: Vec<u64> = Vec::new();
    stack.push(meta.root);
    let mut found: Vec<(Slice, Slice)> = Vec::new();
    let ghost all = walk(image@, meta, seq![meta.root], Set::empty());
    proof {
        assert(marked(bits@) =~= Set::<u64>::empty());
        assert(stack@.reverse() =~= seq![meta.root]);
        if let Ok(tail) = all {
            assert(found@ + tail =~= tail);
        }
    }
    while stack.len() > 0
        invariant
            len == image@.len(),
            meta.high_water * meta.page_size <= image@.len(),
            meta.page_size > 0,
            high_water == meta.high_water,
            page_size == meta.page_size,
            bits@.len() == high_water,
            all == walk(image@, meta, seq![meta.root], Set::empty()),
            all == page::joined(found@, walk(image@, meta, stack@.reverse(), marked(bits@))),
        decreases unvisited(marked(bits@), meta.high_water as int),
    {
        let ghost todo = stack@.reverse();
        let ghost visited = marked(bits@);
        let ghost acc = found@;
        let page: u64 = match stack.pop() {
            Some(page) => page,
            None => return Ok(found),
        };
        assert(todo[0] == page);
        assert(todo.drop_first() =~= stack@.reverse());
        if page < 2 || page >= meta.high_water || bits[page as usize] {
            return Err(Error::Corrupt("invalid or repeated tree page"));
        }
        proof {
            lemma_page_inside(page as int, meta.high_water as int, meta.page_size as int);
        }
        let offset: usize = page as usize * page_size;
        let rest: &[u8] = slice_subrange(image, offset, len);
        assert(rest@ =~= image@.skip(page * meta.page_size));
        let node: Node = match Node::decode(rest, page_size) {
            Ok(node) => node,
            Err(e) => return Err(e),
        };
        let span: usize = node.span();
        if node.page() != page || span as u64 > meta.high_water - page {
            return Err(Error::Corrupt("node page identity mismatch"));
        }
        let free: bool = mark(&mut bits, page as usize, span);
        if !free {
            return Err(Error::Corrupt("overlapping tree pages"));
        }
        proof {
            assert(node_at(image@, meta, page, visited) == Ok::<NodeView, Error>(node@));
            lemma_unvisited(visited, marked(bits@), meta.high_water as int);
            assert(marked(bits@).contains(page));
        }
        if node.is_leaf() {
            let slots: Vec<(Slice, Slice)> = match node.leaf_slots() {
                Ok(slots) => slots,
                Err(e) => return Err(e),
            };
            let ghost here = moved(slots@, offset as int);
            let mut i: usize = 0;
            while i < slots.len()
                invariant
                    i <= slots@.len(),
                    here == moved(slots@, offset as int),
                    node@.block.len() <= rest@.len(),
                    offset + rest@.len() == len,
                    forall|k: int|
                        0 <= k < slots@.len() ==> (#[trigger] slots@[k]).0.within(
                            node@.block.len() as int,
                        ) && slots@[k].1.within(node@.block.len() as int),
                    found@ == acc + here.take(i as int),
                decreases slots@.len() - i,
            {
                let ghost was = found@;
                let (key, value): (Slice, Slice) = slots[i];
                found.push(
                    (
                        Slice { offset: key.offset + offset, len: key.len },
                        Slice { offset: value.offset + offset, len: value.len },
                    ),
                );
                i = i + 1;
                assert(found@ =~= acc + here.take(i as int));
            }
            proof {
                assert(here.take(i as int) =~= here);
                if let Ok(tail) = walk(image@, meta, stack@.reverse(), marked(bits@)) {
                    assert(acc + (here + tail) =~= found@ + tail);
                }
            }
        } else {
            let slots: Vec<(Slice, u64)> = match node.branch_slots() {
                Ok(slots) => slots,
                Err(e) => return Err(e),
            };
            if slots.len() == 0 {
                return Err(Error::Corrupt("empty branch node"));
            }
            let ghost kids = children(slots@);
            let ghost below = stack@;
            let mut i: usize = slots.len();
            assert(kids.skip(i as int) + below.reverse() =~= below.reverse());
            while i > 0
                invariant
                    i <= slots@.len(),
                    kids == children(slots@),
                    stack@.reverse() == kids.skip(i as int) + below.reverse(),
                decreases i,
            {
                let ghost was = stack@;
                i = i - 1;
                stack.push(slots[i].1);
                proof {
                    assert(stack@.reverse() =~= seq![kids[i as int]] + was.reverse());
                    assert(stack@.reverse() =~= kids.skip(i as int) + below.reverse());
                }
            }
            assert(kids.skip(0) =~= kids);
        }
    }
    proof {
        assert(stack@.reverse() =~= Seq::<u64>::empty());
        assert(found@ + Seq::<(Slice, Slice)>::empty() =~= found@);
    }
    Ok(found)
}

/// The records at some slots of a file.
pub open spec fn records_at(image: Seq<u8>, slots: Seq<(Slice, Slice)>) -> Seq<RecordView> {
    slots.map_values(
        |s: (Slice, Slice)| RecordView { key: s.0.of(image), value: s.1.of(image) },
    )
}

/// What a record stands for.
pub enum Loaded {
    /// The placeholder of a tree without records.
    Nothing,
    Bucket { at: Seq<u8>, next: u64 },
    Entry { at: Seq<u8>, key: Seq<u8>, value: Seq<u8> },
}

/// What a record stands for, where it is one of the database's records. A record
/// that is `alone` may be the placeholder of a tree without records.
pub open spec fn loaded_of(r: RecordView, alone: bool) -> Result<Loaded, Error> {
    let len = bytes::le_at(r.key, 1, 4) as int;
    if alone && r.key.len() == 0 && r.value.len() == 0 {
        Ok(Loaded::Nothing)
    } else if r.key.len() > 0 && r.key[0] == 0 && r.value.len() == 8 {
        Ok(Loaded::Bucket { at: r.key.skip(1), next: bytes::le_at(r.value, 0, 8) as u64 })
    } else if r.key.len() >= 5 && r.key[0] == 1 {
        if r.key.len() < 5 + len {
            Err(Error::Corrupt("invalid key path length"))
        } else {
            Ok(
                Loaded::Entry {
                    at: r.key.subrange(5, 5 + len),
                    key: r.key.skip(5 + len),
                    value: r.value,
                },
            )
        }
    } else {
        Err(Error::Corrupt("invalid tree record"))
    }
}

/// Whether the first `n` records are in order and stand for something.
pub open spec fn checked(recs: Seq<RecordView>, n: int) -> Result<(), Error>
    decreases n,
{
    if n <= 0 {
        Ok(())
    } else {
        match checked(recs, n - 1) {
            Err(e) => Err(e),
            Ok(_) => if n >= 2 && !bytes::lex_lt(recs[n - 2].key, recs[n - 1].key) {
                Err(Error::Corrupt("tree keys are not ordered"))
            } else {
                match loaded_of(recs[n - 1], recs.len() == 1) {
                    Err(e) => Err(e),
                    Ok(_) => Ok(()),
                }
            },
        }
    }
}

/// A database after one more record.
pub open spec fn place(m: Model, what: Loaded) -> Result<Model, Error> {
    match what {
        Loaded::Nothing => Ok(m),
        Loaded::Bucket { at, next } => if path::parent_of(at) is None || m.contains_key(at) {
            Err(Error::Corrupt("invalid bucket record"))
        } else {
            Ok(m.insert(at, BucketModel { next, entries: Map::empty() }))
        },
        Loaded::Entry { at, key, value } => if !m.contains_key(at)
            || m[at].entries.contains_key(key) {
            Err(Error::Corrupt("invalid key record"))
        } else {
            Ok(
                m.insert(
                    at,
                    BucketModel { entries: m[at].entries.insert(key, value), ..m[at] },
                ),
            )
        },
    }
}

/// The database of the first `n` records.
pub open spec fn placed(recs: Seq<RecordView>, n: int) -> Result<Model, Error>
    decreases n,
{
    if n <= 0 {
        Ok(Map::empty())
    } else {
        match placed(recs, n - 1) {
            Err(e) => Err(e),
            Ok(m) => place(m, loaded_of(recs[n - 1], recs.len() == 1)->Ok_0),
        }
    }
}

/// Whether every nested bucket has its parent.
pub open spec fn parents_present(m: Model) -> bool {
    forall|at: Seq<u8>| #[trigger]
        m.contains_key(at) ==> match path::parent_of(at) {
            None => false,
            Some(parent) => parent.len() == 0 || m.contains_key(parent),
        }
}

/// Whether no key of a bucket is also the name of a bucket in it.
pub open spec fn names_apart(m: Model) -> bool {
    forall|at: Seq<u8>, key: Seq<u8>|
        m.contains_key(at) && #[trigger] m[at].entries.contains_key(key) ==> !m.contains_key(
            path::child_of(at, key),
        )
}

/// The database that some records stand for.
pub open spec fn model_of(recs: Seq<RecordView>) -> Result<Model, Error> {
    match checked(recs, recs.len() as int) {
        Err(e) => Err(e),
        Ok(_) => match placed(recs, recs.len() as int) {
            Err(e) => Err(e),
            Ok(m) => if !parents_present(m) {
                Err(Error::Corrupt("bucket parent is missing"))
            } else if !names_apart(m) {
                Err(Error::Corrupt("key conflicts with bucket"))
            } else {
                Ok(m)
            },
        },
    }
}

/// What a database file holds.
pub open spec fn loaded(image: Seq<u8>) -> Result<(Meta, Model), Error> {
    match selected_meta(image) {
        Err(e) => Err(e),
        Ok(meta) => if meta.high_water * meta.page_size > u64::MAX {
            Err(Error::Corrupt("file length overflow"))
        } else if meta.high_water * meta.page_size > image.len() {
            Err(Error::Corrupt("committed pages exceed file"))
        } else {
            match walk(image, meta, seq![meta.root], Set::empty()) {
                Err(e) => Err(e),
                Ok(slots) => match model_of(records_at(image, slots)) {
                    Err(e) => Err(e),
                    Ok(m) => Ok((meta, m)),
                },
            }
        },
    }
}

proof fn lemma_checked_stops(recs: Seq<RecordView>, n: int, k: int)
    requires
        0 <= n <= k,
        checked(recs, n) is Err,
    ensures
        checked(recs, k) == checked(recs, n),
    decreases k,
{
    if n < k {
        lemma_checked_stops(recs, n, k - 1);
    }
}

proof fn lemma_placed_stops(recs: Seq<RecordView>, n: int, k: int)
    requires
        0 <= n <= k,
        placed(recs, n) is Err,
    ensures
        placed(recs, k) == placed(recs, n),
    decreases k,
{
    if n < k {
        lemma_placed_stops(recs, n, k - 1);
    }
}

/// Checked records are in strict order.
pub proof fn lemma_checked_order(recs: Seq<RecordView>, n: int)
    requires
        0 <= n <= recs.len(),
        checked(recs, n) is Ok,
    ensures
        forall|i: int, j: int|
            0 <= i < j < n ==> bytes::lex_lt((#[trigger] recs[i]).key, (#[trigger] recs[j]).key),
        forall|i: int| 0 <= i < n ==> loaded_of(#[trigger] recs[i], recs.len() == 1) is Ok,
    decreases n,
{
    if n > 0 {
        lemma_checked_order(recs, n - 1);
        assert forall|i: int, j: int| 0 <= i < j < n implies bytes::lex_lt(
            (#[trigger] recs[i]).key,
            (#[trigger] recs[j]).key,
        ) by {
            if j == n - 1 && i < n - 2 {
                assert(bytes::lex_lt(recs[i].key, recs[n - 2].key));
                bytes::lemma_lex_transitive(recs[i].key, recs[n - 2].key, recs[n - 1].key);
            }
        }
    }
}

/// A bucket of a loaded file: where its path stands, its counter, and where
/// its keys and values stand.
#[derive(Debug)]
pub struct BucketIndex {
    pub at: Slice,
    pub next: u64,
    pub entries: Vec<(Slice, Slice)>,
}

/// A list of entries by what stands in the file.
pub open spec fn entry_list(image: Seq<u8>, entries: Seq<(Slice, Slice)>) -> Seq<
    (Seq<u8>, Seq<u8>),
> {
    entries.map_values(|e: (Slice, Slice)| (e.0.of(image), e.1.of(image)))
}

impl BucketIndex {
    pub open spec fn model(self, image: Seq<u8>) -> BucketModel {
        BucketModel {
            next: self.next,
            entries: assoc::assoc(entry_list(image, self.entries@)),
        }
    }

    /// Whether everything lies inside the file, and the keys are in order.
    pub open spec fn wf(self, image: Seq<u8>) -> bool {
        &&& self.at.within(image.len() as int)
        &&& forall|i: int|
            0 <= i < self.entries@.len() ==> slot_within(
                #[trigger] self.entries@[i],
                image.len() as int,
            )
        &&& crate::bytemap::ascending(entry_list(image, self.entries@))
    }
}

/// A list of buckets by what stands in the file.
pub open spec fn bucket_list(image: Seq<u8>, buckets: Seq<BucketIndex>) -> Seq<
    (Seq<u8>, BucketModel),
> {
    buckets.map_values(|b: BucketIndex| (b.at.of(image), b.model(image)))
}

/// A loaded database file: its meta page, and where its buckets stand.
#[derive(Debug)]
pub struct State {
    pub meta: Meta,
    pub buckets: Vec<BucketIndex>,
}

impl State {
    /// What the database holds, read out of its file.
    pub open spec fn model(self, image: Seq<u8>) -> Model {
        assoc::assoc(bucket_list(image, self.buckets@))
    }

    /// Whether the index fits the file.
    pub open spec fn wf(self, image: Seq<u8>) -> bool {
        buckets_wf(image, self.buckets@)
    }
}

/// Whether an index fits the file: everything lies inside it, and the paths
/// are in order.
pub open spec fn buckets_wf(image: Seq<u8>, buckets: Seq<BucketIndex>) -> bool {
    &&& forall|i: int| 0 <= i < buckets.len() ==> (#[trigger] buckets[i]).wf(image)
    &&& crate::bytemap::ascending(bucket_list(image, buckets))
}

/// Finds the bucket at a path: where it stands, or where it belongs.
pub fn find_bucket(image: &[u8], buckets: &Vec<BucketIndex>, at: &[u8]) -> (r: Result<
    usize,
    usize,
>)
    requires
        buckets_wf(image@, buckets@),
    ensures
        match r {
            Ok(i) => i < buckets@.len() && buckets@[i as int].at.of(image@) == at@ && assoc::assoc(
                bucket_list(image@, buckets@),
            ).contains_key(at@) && assoc::assoc(bucket_list(image@, buckets@))[at@]
                == buckets@[i as int].model(image@),
            Err(i) => i <= buckets@.len() && !assoc::assoc(
                bucket_list(image@, buckets@),
            ).contains_key(at@) && !assoc::has_key(bucket_list(image@, buckets@), at@),
        },
{
    let ghost s = bucket_list(image@, buckets@);
    proof {
        crate::bytemap::lemma_ascending_distinct(s);
    }
    let mut low: usize = 0;
    let mut high: usize = buckets.len();
    while low < high
        invariant
            s == bucket_list(image@, buckets@),
            buckets_wf(image@, buckets@),
            crate::bytemap::ascending(s),
            assoc::distinct(s),
            low <= high <= s.len() == buckets@.len(),
            forall|j: int| 0 <= j < low ==> bytes::lex_lt((#[trigger] s[j]).0, at@),
            forall|j: int| high <= j < s.len() ==> bytes::lex_lt(at@, (#[trigger] s[j]).0),
        decreases high - low,
    {
        let mid: usize = low + (high - low) / 2;
        assert(buckets@[mid as int].wf(image@));
        match order(buckets[mid].at.get(image), at) {
            Order::Equal => {
                proof {
                    assoc::lemma_assoc_at(s, mid as int);
                }
                return Ok(mid);
            },
            Order::Less => {
                proof {
                    assert forall|j: int| 0 <= j < mid + 1 implies bytes::lex_lt(
                        (#[trigger] s[j]).0,
                        at@,
                    ) by {
                        if j < mid {
                            bytes::lemma_lex_transitive(s[j].0, s[mid as int].0, at@);
                        }
                    }
                }
                low = mid + 1;
            },
            Order::Greater => {
                proof {
                    bytes::lemma_lex_total(s[mid as int].0, at@);
                    assert forall|j: int| mid <= j < s.len() implies bytes::lex_lt(
                        at@,
                        (#[trigger] s[j]).0,
                    ) by {
                        if j > mid {
                            bytes::lemma_lex_transitive(at@, s[mid as int].0, s[j].0);
                        }
                    }
                }
                high = mid;
            },
        }
    }
    proof {
        assoc::lemma_assoc_has(s, at@);
        bytes::lemma_lex_irreflexive(at@);
    }
    Err(low)
}

/// Finds a key of a bucket: where it stands, or where it belongs.
pub fn find_entry(image: &[u8], bucket: &BucketIndex, key: &[u8]) -> (r: Result<usize, usize>)
    requires
        bucket.wf(image@),
    ensures
        match r {
            Ok(i) => i < bucket.entries@.len() && bucket.entries@[i as int].0.of(image@) == key@
                && bucket.model(image@).entries.contains_key(key@) && bucket.model(
                image@,
            ).entries[key@] == bucket.entries@[i as int].1.of(image@),
            Err(i) => i <= bucket.entries@.len() && !bucket.model(image@).entries.contains_key(
                key@,
            ) && !assoc::has_key(entry_list(image@, bucket.entries@), key@),
        },
{
    let ghost s = entry_list(image@, bucket.entries@);
    proof {
        crate::bytemap::lemma_ascending_distinct(s);
    }
    let mut low: usize = 0;
    let mut high: usize = bucket.entries.len();
    while low < high
        invariant
            s == entry_list(image@, bucket.entries@),
            bucket.wf(image@),
            crate::bytemap::ascending(s),
            assoc::distinct(s),
            low <= high <= s.len() == bucket.entries@.len(),
            forall|j: int| 0 <= j < low ==> bytes::lex_lt((#[trigger] s[j]).0, key@),
            forall|j: int| high <= j < s.len() ==> bytes::lex_lt(key@, (#[trigger] s[j]).0),
        decreases high - low,
    {
        let mid: usize = low + (high - low) / 2;
        assert(slot_within(bucket.entries@[mid as int], image@.len() as int));
        match order(bucket.entries[mid].0.get(image), key) {
            Order::Equal => {
                proof {
                    assoc::lemma_assoc_at(s, mid as int);
                }
                return Ok(mid);
            },
            Order::Less => {
                proof {
                    assert forall|j: int| 0 <= j < mid + 1 implies bytes::lex_lt(
                        (#[trigger] s[j]).0,
                        key@,
                    ) by {
                        if j < mid {
                            bytes::lemma_lex_transitive(s[j].0, s[mid as int].0, key@);
                        }
                    }
                }
                low = mid + 1;
            },
            Order::Greater => {
                proof {
                    bytes::lemma_lex_total(s[mid as int].0, key@);
                    assert forall|j: int| mid <= j < s.len() implies bytes::lex_lt(
                        key@,
                        (#[trigger] s[j]).0,
                    ) by {
                        if j > mid {
                            bytes::lemma_lex_transitive(key@, s[mid as int].0, s[j].0);
                        }
                    }
                }
                high = mid;
            },
        }
    }
    proof {
        assoc::lemma_assoc_has(s, key@);
        bytes::lemma_lex_irreflexive(key@);
    }
    Err(low)
}

/// What a record stands for, and where its parts stand in the file.
enum LoadedSlot {
    Nothing,
    Bucket { at: Slice, next: u64 },
    Entry { at: Slice, key: Slice, value: Slice },
}

impl LoadedSlot {
    spec fn what(self, image: Seq<u8>) -> Loaded {
        match self {
            LoadedSlot::Nothing => Loaded::Nothing,
            LoadedSlot::Bucket { at, next } => Loaded::Bucket { at: at.of(image), next },
            LoadedSlot::Entry { at, key, value } => Loaded::Entry {
                at: at.of(image),
                key: key.of(image),
                value: value.of(image),
            },
        }
    }

    spec fn within(self, len: int) -> bool {
        match self {
            LoadedSlot::Nothing => true,
            LoadedSlot::Bucket { at, next } => at.within(len),
            LoadedSlot::Entry { at, key, value } => at.within(len) && slot_within(
                (key, value),
                len,
            ),
        }
    }
}

/// Reads what a record stands for.
fn read_slot(image: &[u8], slot: (Slice, Slice), alone: bool) -> (r: Result<LoadedSlot, Error>)
    requires
        slot_within(slot, image@.len() as int),
    ensures
        ({
            let rec = RecordView { key: slot.0.of(image@), value: slot.1.of(image@) };
            match r {
                Ok(what) => loaded_of(rec, alone) == Ok::<Loaded, Error>(what.what(image@))
                    && what.within(image@.len() as int),
                Err(e) => loaded_of(rec, alone) == Err::<Loaded, Error>(e),
            }
        }),
{
    let len: usize = image.len();
    let (key_slice, value_slice): (Slice, Slice) = slot;
    let key: &[u8] = key_slice.get(image);
    let value: &[u8] = value_slice.get(image);
    if alone && key.len() == 0 && value.len() == 0 {
        return Ok(LoadedSlot::Nothing);
    }
    if key.len() > 0 && key[0] == 0 && value.len() == 8 {
        let at: Slice = Slice { offset: key_slice.offset + 1, len: key_slice.len - 1 };
        assert(at.of(image@) =~= key@.skip(1));
        let next: u64 = u64_le_at(value, 0);
        return Ok(LoadedSlot::Bucket { at, next });
    }
    if key.len() >= 5 && key[0] == 1 {
        let path_len: usize = u32_le_at(key, 1) as usize;
        if key.len() - 5 < path_len {
            return Err(Error::Corrupt("invalid key path length"));
        }
        let at: Slice = Slice { offset: key_slice.offset + 5, len: path_len };
        let name: Slice = Slice {
            offset: key_slice.offset + 5 + path_len,
            len: key_slice.len - 5 - path_len,
        };
        assert(at.of(image@) =~= key@.subrange(5, 5 + path_len));
        assert(name.of(image@) =~= key@.skip(5 + path_len));
        return Ok(LoadedSlot::Entry { at, key: name, value: value_slice });
    }
    Err(Error::Corrupt("invalid tree record"))
}

/// Whether every bucket and every entry comes from one of the first `n`
/// records.
spec fn origins(image: Seq<u8>, buckets: Seq<BucketIndex>, recs: Seq<RecordView>, n: int) -> bool {
    &&& forall|b: int|
        0 <= b < buckets.len() ==> has_record(
            recs,
            n,
            state::bucket_key((#[trigger] buckets[b]).at.of(image)),
        )
    &&& forall|b: int, e: int|
        0 <= b < buckets.len() && 0 <= e < buckets[b].entries@.len() ==> has_record(
            recs,
            n,
            state::entry_key(
                buckets[b].at.of(image),
                (#[trigger] buckets[b].entries@[e]).0.of(image),
            ),
        )
}

spec fn has_record(recs: Seq<RecordView>, n: int, key: Seq<u8>) -> bool {
    exists|j: int| 0 <= j < n && (#[trigger] recs[j]).key == key
}

proof fn lemma_has_record_grows(recs: Seq<RecordView>, n: int, key: Seq<u8>)
    requires
        has_record(recs, n, key),
    ensures
        has_record(recs, n + 1, key),
{
    let j = choose|j: int| 0 <= j < n && (#[trigger] recs[j]).key == key;
    assert(recs[j].key == key);
}

proof fn lemma_add_bucket(
    image: Seq<u8>,
    buckets: Seq<BucketIndex>,
    recs: Seq<RecordView>,
    n: int,
    new: BucketIndex,
)
    requires
        0 <= n < recs.len(),
        forall|i: int, j: int|
            0 <= i < j < recs.len() ==> bytes::lex_lt(
                (#[trigger] recs[i]).key,
                (#[trigger] recs[j]).key,
            ),
        buckets_wf(image, buckets),
        origins(image, buckets, recs, n),
        recs[n].key == state::bucket_key(new.at.of(image)),
        new.at.within(image.len() as int),
        new.entries@.len() == 0,
    ensures
        buckets_wf(image, buckets.push(new)),
        origins(image, buckets.push(new), recs, n + 1),
        assoc::assoc(bucket_list(image, buckets.push(new))) == assoc::assoc(
            bucket_list(image, buckets),
        ).insert(
            new.at.of(image),
            BucketModel { next: new.next, entries: Map::empty() },
        ),
{
    let s = bucket_list(image, buckets);
    let now = buckets.push(new);
    let t = bucket_list(image, now);
    let p = new.at.of(image);
    assert(entry_list(image, new.entries@) =~= Seq::<(Seq<u8>, Seq<u8>)>::empty());
    assert(new.model(image) == BucketModel { next: new.next, entries: Map::empty() });
    assert(t =~= s.push((p, new.model(image))));
    assert(t.drop_last() =~= s);
    assert forall|i: int, j: int| 0 <= i < j < t.len() implies bytes::lex_lt(
        (#[trigger] t[i]).0,
        (#[trigger] t[j]).0,
    ) by {
        if j == s.len() {
            let q = buckets[i].at.of(image);
            assert(has_record(recs, n, state::bucket_key(q)));
            let k = choose|k: int| 0 <= k < n && (#[trigger] recs[k]).key == state::bucket_key(q);
            assert(bytes::lex_lt(recs[k].key, recs[n].key));
            bytes::lemma_lex_common_prefix(seq![0u8], q, p);
        } else {
            assert(bytes::lex_lt(s[i].0, s[j].0));
        }
    }
    assert forall|i: int| 0 <= i < now.len() implies (#[trigger] now[i]).wf(image) by {
        if i < buckets.len() {
            assert(buckets[i].wf(image));
        }
    }
    assert forall|b: int| 0 <= b < now.len() implies has_record(
        recs,
        n + 1,
        state::bucket_key((#[trigger] now[b]).at.of(image)),
    ) by {
        if b < buckets.len() {
            lemma_has_record_grows(recs, n, state::bucket_key(buckets[b].at.of(image)));
        } else {
            assert(recs[n].key == state::bucket_key(p));
        }
    }
    assert forall|b: int, e: int|
        0 <= b < now.len() && 0 <= e < now[b].entries@.len() implies has_record(
        recs,
        n + 1,
        state::entry_key(now[b].at.of(image), (#[trigger] now[b].entries@[e]).0.of(image)),
    ) by {
        lemma_has_record_grows(
            recs,
            n,
            state::entry_key(buckets[b].at.of(image), buckets[b].entries@[e].0.of(image)),
        );
    }
}

proof fn lemma_add_entry(
    image: Seq<u8>,
    buckets: Seq<BucketIndex>,
    recs: Seq<RecordView>,
    n: int,
    b: int,
    new: BucketIndex,
    slot: (Slice, Slice),
)
    requires
        0 <= n < recs.len(),
        forall|i: int, j: int|
            0 <= i < j < recs.len() ==> bytes::lex_lt(
                (#[trigger] recs[i]).key,
                (#[trigger] recs[j]).key,
            ),
        buckets_wf(image, buckets),
        origins(image, buckets, recs, n),
        0 <= b < buckets.len(),
        recs[n].key == state::entry_key(buckets[b].at.of(image), slot.0.of(image)),
        slot_within(slot, image.len() as int),
        new.at == buckets[b].at,
        new.next == buckets[b].next,
        new.entries@ == buckets[b].entries@.push(slot),
    ensures
        buckets_wf(image, buckets.update(b, new)),
        origins(image, buckets.update(b, new), recs, n + 1),
        ({
            let at = buckets[b].at.of(image);
            let m = assoc::assoc(bucket_list(image, buckets));
            assoc::assoc(bucket_list(image, buckets.update(b, new))) == m.insert(
                at,
                BucketModel {
                    entries: m[at].entries.insert(slot.0.of(image), slot.1.of(image)),
                    ..m[at]
                },
            )
        }),
{
    let s = bucket_list(image, buckets);
    let now = buckets.update(b, new);
    let t = bucket_list(image, now);
    let at = buckets[b].at.of(image);
    let key = slot.0.of(image);
    let was = entry_list(image, buckets[b].entries@);
    let list = entry_list(image, new.entries@);
    assert(list =~= was.push((key, slot.1.of(image))));
    assert(list.drop_last() =~= was);
    crate::bytemap::lemma_ascending_distinct(s);
    assoc::lemma_assoc_at(s, b);
    assert(t =~= s.update(b, (s[b].0, new.model(image))));
    assoc::lemma_assoc_update(s, b, new.model(image));
    assert(buckets[b].wf(image));
    let head = seq![1u8] + bytes::le_of(at.len(), 4) + at;
    assert forall|i: int, j: int| 0 <= i < j < list.len() implies bytes::lex_lt(
        (#[trigger] list[i]).0,
        (#[trigger] list[j]).0,
    ) by {
        if j == was.len() {
            let other = buckets[b].entries@[i].0.of(image);
            assert(has_record(recs, n, state::entry_key(at, other)));
            let k = choose|k: int|
                0 <= k < n && (#[trigger] recs[k]).key == state::entry_key(at, other);
            assert(bytes::lex_lt(recs[k].key, recs[n].key));
            assert(state::entry_key(at, other) =~= head + other);
            assert(state::entry_key(at, key) =~= head + key);
            bytes::lemma_lex_common_prefix(head, other, key);
        } else {
            assert(bytes::lex_lt(was[i].0, was[j].0));
        }
    }
    assert forall|i: int| 0 <= i < new.entries@.len() implies slot_within(
        #[trigger] new.entries@[i],
        image.len() as int,
    ) by {
        if i < was.len() {
            assert(slot_within(buckets[b].entries@[i], image.len() as int));
        }
    }
    assert(new.wf(image));
    assert forall|i: int| 0 <= i < now.len() implies (#[trigger] now[i]).wf(image) by {
        if i != b {
            assert(buckets[i].wf(image));
        }
    }
    assert forall|i: int, j: int| 0 <= i < j < t.len() implies bytes::lex_lt(
        (#[trigger] t[i]).0,
        (#[trigger] t[j]).0,
    ) by {
        assert(bytes::lex_lt(s[i].0, s[j].0));
    }
    assert forall|c: int| 0 <= c < now.len() implies has_record(
        recs,
        n + 1,
        state::bucket_key((#[trigger] now[c]).at.of(image)),
    ) by {
        lemma_has_record_grows(recs, n, state::bucket_key(buckets[c].at.of(image)));
    }
    assert forall|c: int, e: int|
        0 <= c < now.len() && 0 <= e < now[c].entries@.len() implies has_record(
        recs,
        n + 1,
        state::entry_key(now[c].at.of(image), (#[trigger] now[c].entries@[e]).0.of(image)),
    ) by {
        if c == b && e == was.len() {
            assert(recs[n].key == state::entry_key(at, key));
        } else {
            lemma_has_record_grows(
                recs,
                n,
                state::entry_key(buckets[c].at.of(image), buckets[c].entries@[e].0.of(image)),
            );
        }
    }
}

/// Checks the records of a tree, one by one.
fn check_records(image: &[u8], slots: &Vec<(Slice, Slice)>) -> (r: Result<(), Error>)
    requires
        forall|i: int|
            0 <= i < slots@.len() ==> slot_within(#[trigger] slots@[i], image@.len() as int),
    ensures
        r == checked(records_at(image@, slots@), slots@.len() as int),
{
    let ghost recs = records_at(image@, slots@);
    let mut i: usize = 0;
    while i < slots.len()
        invariant
            i <= slots@.len(),
            recs == records_at(image@, slots@),
            forall|i: int|
                0 <= i < slots@.len() ==> slot_within(#[trigger] slots@[i], image@.len() as int),
            checked(recs, i as int) == Ok::<(), Error>(()),
        decreases slots@.len() - i,
    {
        assert(slot_within(slots@[i as int], image@.len() as int));
        assert(recs[i as int] == RecordView {
            key: slots@[i as int].0.of(image@),
            value: slots@[i as int].1.of(image@),
        });
        if i > 0 {
            assert(slot_within(slots@[i - 1], image@.len() as int));
            if !less(slots[i - 1].0.get(image), slots[i].0.get(image)) {
                proof {
                    lemma_checked_stops(recs, i + 1, slots@.len() as int);
                }
                return Err(Error::Corrupt("tree keys are not ordered"));
            }
        }
        match read_slot(image, slots[i], slots.len() == 1) {
            Ok(_) => {},
            Err(e) => {
                proof {
                    lemma_checked_stops(recs, i + 1, slots@.len() as int);
                }
                return Err(e);
            },
        }
        i = i + 1;
    }
    Ok(())
}

/// Files the records of a tree under their buckets.
fn place_records(image: &[u8], slots: &Vec<(Slice, Slice)>) -> (r: Result<Vec<BucketIndex>, Error>)
    requires
        forall|i: int|
            0 <= i < slots@.len() ==> slot_within(#[trigger] slots@[i], image@.len() as int),
        checked(records_at(image@, slots@), slots@.len() as int) is Ok,
    ensures
        match r {
            Ok(buckets) => buckets_wf(image@, buckets@) && placed(
                records_at(image@, slots@),
                slots@.len() as int,
            ) == Ok::<Model, Error>(assoc::assoc(bucket_list(image@, buckets@))),
            Err(e) => placed(records_at(image@, slots@), slots@.len() as int) == Err::<
                Model,
                Error,
            >(e),
        },
{
    let ghost recs = records_at(image@, slots@);
    let mut buckets: Vec<BucketIndex> = Vec::new();
    let mut i: usize = 0;
    proof {
        lemma_checked_order(recs, recs.len() as int);
        assert(bucket_list(image@, buckets@) =~= Seq::<(Seq<u8>, BucketModel)>::empty());
    }
    while i < slots.len()
        invariant
            i <= slots@.len() == recs.len(),
            recs == records_at(image@, slots@),
            forall|i: int|
                0 <= i < slots@.len() ==> slot_within(#[trigger] slots@[i], image@.len() as int),
            forall|i: int, j: int|
                0 <= i < j < recs.len() ==> bytes::lex_lt(
                    (#[trigger] recs[i]).key,
                    (#[trigger] recs[j]).key,
                ),
            forall|i: int| 0 <= i < recs.len() ==> loaded_of(#[trigger] recs[i], recs.len() == 1) is Ok,
            buckets_wf(image@, buckets@),
            origins(image@, buckets@, recs, i as int),
            placed(recs, i as int) == Ok::<Model, Error>(
                assoc::assoc(bucket_list(image@, buckets@)),
            ),
        decreases slots@.len() - i,
    {
        let ghost n = i as int;
        assert(slot_within(slots@[n], image@.len() as int));
        assert(recs[n] == RecordView {
            key: slots@[n].0.of(image@),
            value: slots@[n].1.of(image@),
        });
        let what: LoadedSlot = match read_slot(image, slots[i], slots.len() == 1) {
            Ok(what) => what,
            Err(e) => {
                assert(loaded_of(recs[n], recs.len() == 1) is Ok);
                return Err(e);
            },
        };
        match what {
            LoadedSlot::Nothing => {
                proof {
                    assert forall|b: int| 0 <= b < buckets@.len() implies has_record(
                        recs,
                        n + 1,
                        state::bucket_key((#[trigger] buckets@[b]).at.of(image@)),
                    ) by {
                        lemma_has_record_grows(
                            recs,
                            n,
                            state::bucket_key(buckets@[b].at.of(image@)),
                        );
                    }
                    assert forall|b: int, e: int|
                        0 <= b < buckets@.len() && 0 <= e
                            < buckets@[b].entries@.len() implies has_record(
                        recs,
                        n + 1,
                        state::entry_key(
                            buckets@[b].at.of(image@),
                            (#[trigger] buckets@[b].entries@[e]).0.of(image@),
                        ),
                    ) by {
                        lemma_has_record_grows(
                            recs,
                            n,
                            state::entry_key(
                                buckets@[b].at.of(image@),
                                buckets@[b].entries@[e].0.of(image@),
                            ),
                        );
                    }
                }
            },
            LoadedSlot::Bucket { at, next } => {
                let bytes: &[u8] = at.get(image);
                if parent_path(bytes).is_none() {
                    proof {
                        lemma_placed_stops(recs, n + 1, recs.len() as int);
                    }
                    return Err(Error::Corrupt("invalid bucket record"));
                }
                match find_bucket(image, &buckets, bytes) {
                    Ok(_) => {
                        proof {
                            lemma_placed_stops(recs, n + 1, recs.len() as int);
                        }
                        return Err(Error::Corrupt("invalid bucket record"));
                    },
                    Err(_) => {},
                }
                let new: BucketIndex = BucketIndex { at, next, entries: Vec::new() };
                proof {
                    assert(recs[n].key =~= state::bucket_key(at.of(image@)));
                    lemma_add_bucket(image@, buckets@, recs, n, new);
                }
                buckets.push(new);
            },
            LoadedSlot::Entry { at, key, value } => {
                let bytes: &[u8] = at.get(image);
                let b: usize = match find_bucket(image, &buckets, bytes) {
                    Ok(b) => b,
                    Err(_) => {
                        proof {
                            lemma_placed_stops(recs, n + 1, recs.len() as int);
                        }
                        return Err(Error::Corrupt("invalid key record"));
                    },
                };
                assert(buckets@[b as int].wf(image@));
                match find_entry(image, &buckets[b], key.get(image)) {
                    Ok(_) => {
                        proof {
                            lemma_placed_stops(recs, n + 1, recs.len() as int);
                        }
                        return Err(Error::Corrupt("invalid key record"));
                    },
                    Err(_) => {},
                }
                let ghost was = buckets@;
                let slot: (Slice, Slice) = (key, value);
                let bucket: &mut BucketIndex = &mut buckets[b];
                bucket.entries.push(slot);
                proof {
                    let new = buckets@[b as int];
                    assert(buckets@ =~= was.update(b as int, new));
                    let k = recs[n].key;
                    let len = bytes::le_at(k, 1, 4);
                    bytes::lemma_le_inverse(k.subrange(1, 5));
                    assert(k =~= state::entry_key(at.of(image@), key.of(image@)));
                    lemma_add_entry(image@, was, recs, n, b as int, new, slot);
                }
            },
        }
        i = i + 1;
    }
    Ok(buckets)
}

pub proof fn lemma_bucket_listed(image: Seq<u8>, buckets: Seq<BucketIndex>, i: int)
    requires
        buckets_wf(image, buckets),
        0 <= i < buckets.len(),
    ensures
        ({
            let m = assoc::assoc(bucket_list(image, buckets));
            m.contains_key(buckets[i].at.of(image)) && m[buckets[i].at.of(image)]
                == buckets[i].model(image)
        }),
{
    let s = bucket_list(image, buckets);
    crate::bytemap::lemma_ascending_distinct(s);
    assoc::lemma_assoc_at(s, i);
}

pub proof fn lemma_listed_bucket(image: Seq<u8>, buckets: Seq<BucketIndex>, at: Seq<u8>) -> (i: int)
    requires
        buckets_wf(image, buckets),
        assoc::assoc(bucket_list(image, buckets)).contains_key(at),
    ensures
        0 <= i < buckets.len(),
        buckets[i].at.of(image) == at,
        assoc::assoc(bucket_list(image, buckets))[at] == buckets[i].model(image),
{
    let s = bucket_list(image, buckets);
    assoc::lemma_assoc_has(s, at);
    let i = choose|i: int| 0 <= i < s.len() && (#[trigger] s[i]).0 == at;
    lemma_bucket_listed(image, buckets, i);
    i
}

pub proof fn lemma_listed_entry(image: Seq<u8>, bucket: BucketIndex, key: Seq<u8>) -> (i: int)
    requires
        bucket.wf(image),
        bucket.model(image).entries.contains_key(key),
    ensures
        0 <= i < bucket.entries@.len(),
        bucket.entries@[i].0.of(image) == key,
        bucket.model(image).entries[key] == bucket.entries@[i].1.of(image),
{
    let s = entry_list(image, bucket.entries@);
    crate::bytemap::lemma_ascending_distinct(s);
    assoc::lemma_assoc_has(s, key);
    let i = choose|i: int| 0 <= i < s.len() && (#[trigger] s[i]).0 == key;
    assoc::lemma_assoc_at(s, i);
    i
}

/// Checks that nested buckets have their parents, and that no key is also the
/// name of a bucket.
fn validate_loaded_state(image: &[u8], buckets: &Vec<BucketIndex>) -> (r: Result<(), Error>)
    requires
        buckets_wf(image@, buckets@),
    ensures
        ({
            let m = assoc::assoc(bucket_list(image@, buckets@));
            r == (if !parents_present(m) {
                Err(Error::Corrupt("bucket parent is missing"))
            } else if !names_apart(m) {
                Err(Error::Corrupt("key conflicts with bucket"))
            } else {
                Ok(())
            })
        }),
{
    let ghost m = assoc::assoc(bucket_list(image@, buckets@));
    let mut i: usize = 0;
    while i < buckets.len()
        invariant
            i <= buckets@.len(),
            buckets_wf(image@, buckets@),
            m == assoc::assoc(bucket_list(image@, buckets@)),
            forall|j: int|
                0 <= j < i ==> match path::parent_of((#[trigger] buckets@[j]).at.of(image@)) {
                    None => false,
                    Some(parent) => parent.len() == 0 || m.contains_key(parent),
                },
        decreases buckets@.len() - i,
    {
        assert(buckets@[i as int].wf(image@));
        proof {
            lemma_bucket_listed(image@, buckets@, i as int);
        }
        match parent_path(buckets[i].at.get(image)) {
            None => return Err(Error::Corrupt("bucket parent is missing")),
            Some(parent) => {
                if parent.len() > 0 {
                    match find_bucket(image, buckets, parent) {
                        Ok(_) => {},
                        Err(_) => return Err(Error::Corrupt("bucket parent is missing")),
                    }
                }
            },
        }
        i = i + 1;
    }
    proof {
        assert forall|at: Seq<u8>| #[trigger] m.contains_key(at) implies match path::parent_of(
            at,
        ) {
            None => false,
            Some(parent) => parent.len() == 0 || m.contains_key(parent),
        } by {
            let j = lemma_listed_bucket(image@, buckets@, at);
            assert(buckets@[j].at.of(image@) == at);
        }
    }
    let mut b: usize = 0;
    while b < buckets.len()
        invariant
            b <= buckets@.len(),
            buckets_wf(image@, buckets@),
            m == assoc::assoc(bucket_list(image@, buckets@)),
            parents_present(m),
            forall|c: int, e: int|
                0 <= c < b && 0 <= e < buckets@[c].entries@.len() ==> !m.contains_key(
                    path::child_of(
                        buckets@[c].at.of(image@),
                        (#[trigger] buckets@[c].entries@[e]).0.of(image@),
                    ),
                ),
        decreases buckets@.len() - b,
    {
        let bucket: &BucketIndex = &buckets[b];
        assert(buckets@[b as int].wf(image@));
        let mut e: usize = 0;
        while e < bucket.entries.len()
            invariant
                b < buckets@.len(),
                buckets_wf(image@, buckets@),
                m == assoc::assoc(bucket_list(image@, buckets@)),
                parents_present(m),
                *bucket == buckets@[b as int],
                bucket.wf(image@),
                e <= bucket.entries@.len(),
                forall|f: int|
                    0 <= f < e ==> !m.contains_key(
                        path::child_of(
                            bucket.at.of(image@),
                            (#[trigger] bucket.entries@[f]).0.of(image@),
                        ),
                    ),
            decreases bucket.entries@.len() - e,
        {
            assert(slot_within(bucket.entries@[e as int], image@.len() as int));
            let child: Vec<u8> = match child_path(
                bucket.at.get(image),
                bucket.entries[e].0.get(image),
            ) {
                Ok(child) => child,
                Err(e) => return Err(e),
            };
            match find_bucket(image, buckets, &child) {
                Ok(_) => {
                    proof {
                        let at = bucket.at.of(image@);
                        let key = bucket.entries@[e as int].0.of(image@);
                        lemma_bucket_listed(image@, buckets@, b as int);
                        let s = entry_list(image@, bucket.entries@);
                        crate::bytemap::lemma_ascending_distinct(s);
                        assoc::lemma_assoc_at(s, e as int);
                        assert(m[at].entries.contains_key(key));
                    }
                    return Err(Error::Corrupt("key conflicts with bucket"));
                },
                Err(_) => {},
            }
            e = e + 1;
        }
        b = b + 1;
    }
    proof {
        assert forall|at: Seq<u8>, key: Seq<u8>|
            m.contains_key(at) && #[trigger] m[at].entries.contains_key(
                key,
            ) implies !m.contains_key(path::child_of(at, key)) by {
            let c = lemma_listed_bucket(image@, buckets@, at);
            assert(buckets@[c].wf(image@));
            let e = lemma_listed_entry(image@, buckets@[c], key);
            assert(buckets@[c].entries@[e].0.of(image@) == key);
        }
    }
    Ok(())
}

/// A result of loading by what it holds.
pub open spec fn loaded_view(image: Seq<u8>, r: Result<State, Error>) -> Result<
    (Meta, Model),
    Error,
> {
    match r {
        Ok(state) => Ok((state.meta, state.model(image))),
        Err(e) => Err(e),
    }
}

/// Loads a database file.
pub fn load_state(image: &[u8]) -> (r: Result<State, Error>)
    ensures
        loaded_view(image@, r) == loaded(image@),
        r is Ok ==> r->Ok_0.wf(image@),
{
    let meta: Meta = match select_meta(image) {
        Ok(meta) => meta,
        Err(e) => return Err(e),
    };
    let required: u64 = match meta.high_water.checked_mul(meta.page_size as u64) {
        Some(n) => n,
        None => return Err(Error::Corrupt("file length overflow")),
    };
    if required > image.len() as u64 {
        return Err(Error::Corrupt("committed pages exceed file"));
    }
    let slots: Vec<(Slice, Slice)> = match walk_tree(image, meta) {
        Ok(slots) => slots,
        Err(e) => return Err(e),
    };
    proof {
        lemma_walk_within(image@, meta, seq![meta.root], Set::empty());
    }
    match check_records(image, &slots) {
        Ok(_) => {},
        Err(e) => return Err(e),
    }
    let buckets: Vec<BucketIndex> = match place_records(image, &slots) {
        Ok(buckets) => buckets,
        Err(e) => return Err(e),
    };
    match validate_loaded_state(image, &buckets) {
        Ok(_) => {},
        Err(e) => return Err(e),
    }
    Ok(State { meta, buckets })
}

} // verus!
