//! Laying out buckets in fresh pages: one block for each bucket, the nested
//! ones before those that hold them.

use crate::api::cursor as index;
use crate::api::tree::{self, Item, Leaf, Node, Tree};
use crate::bytes::{self, owned};
use crate::storage::cursor::{self, Source};
use crate::storage::meta::{self, BucketMeta};
use crate::storage::node::{self, write_node, LeafEntry, NodeData};
use crate::storage::page::{self, CHECKSUM_SIZE, DATA_OFFSET, LEAF_SIZE, NODE_BUCKET, NODE_DATA};
use crate::storage::writer::{self, DirtyBlock};
use vstd::prelude::*;

verus! {

/// How many bytes of a block an entry takes.
pub open spec fn entry_len(e: (Seq<u8>, Item)) -> int {
    LEAF_SIZE + e.0.len() + match e.1 {
        Item::Value(value) => value.len() as int,
        Item::Bucket(_) => 16,
    }
}

/// How many bytes of a block entries take.
pub open spec fn body_len(l: Seq<(Seq<u8>, Item)>) -> int
    decreases l.len(),
{
    if l.len() == 0 {
        0
    } else {
        body_len(l.drop_last()) + entry_len(l.last())
    }
}

/// How many bytes the block of a bucket needs.
pub open spec fn block_len(t: Tree) -> int {
    DATA_OFFSET + body_len(tree::listing(t)) + CHECKSUM_SIZE
}

/// How many pages some bytes take.
pub open spec fn whole_pages(len: int, pagesize: int) -> int {
    (len + pagesize - 1) / pagesize
}

/// How many pages the buckets among the first `n` entries take, with all that
/// is in them.
pub open spec fn below_pages(t: Tree, pagesize: int, n: int) -> int
    decreases t, n,
{
    if n <= 0 {
        0
    } else {
        let key = tree::listing(t)[n - 1].0;
        let rest = below_pages(t, pagesize, n - 1);
        if t.items.contains_key(key) && t.items[key] is Bucket {
            let child = t.items[key]->Bucket_0;
            rest + below_pages(child, pagesize, tree::listing(child).len() as int) + whole_pages(
                block_len(child),
                pagesize,
            )
        } else {
            rest
        }
    }
}

/// How many pages a bucket takes, with all that is in it.
pub open spec fn pages_of(t: Tree, pagesize: int) -> int {
    below_pages(t, pagesize, tree::listing(t).len() as int) + whole_pages(block_len(t), pagesize)
}

proof fn lemma_body_len(l: Seq<(Seq<u8>, Item)>, n: int)
    requires
        0 <= n <= l.len(),
    ensures
        0 <= body_len(l.take(n)) <= body_len(l),
        n < l.len() ==> body_len(l.take(n + 1)) == body_len(l.take(n)) + entry_len(l[n]),
    decreases l.len(),
{
    if n < l.len() {
        assert(l.take(n + 1).drop_last() =~= l.take(n));
        assert(l.take(n + 1).last() == l[n]);
        lemma_body_len(l.drop_last(), n);
        assert(l.drop_last().take(n) =~= l.take(n));
    } else {
        assert(l.take(n) =~= l);
        if n > 0 {
            lemma_body_len(l.drop_last(), n - 1);
            assert(l.drop_last().take(n - 1) =~= l.drop_last());
        }
    }
}

pub proof fn lemma_whole_pages(len: int, pagesize: int)
    requires
        pagesize > 0,
        len > 0,
    ensures
        whole_pages(len, pagesize) > 0,
        len <= whole_pages(len, pagesize) * pagesize < len + pagesize,
{
    vstd::arithmetic::div_mod::lemma_fundamental_div_mod(len + pagesize - 1, pagesize);
    vstd::arithmetic::div_mod::lemma_mod_bound(len + pagesize - 1, pagesize);
    let q = whole_pages(len, pagesize);
    assert(pagesize * q == q * pagesize) by (nonlinear_arith);
    assert(q > 0) by (nonlinear_arith)
        requires
            q * pagesize >= len,
            len > 0,
            pagesize > 0,
    ;
}

proof fn lemma_below_pages(t: Tree, pagesize: int, n: int, m: int)
    requires
        pagesize > 0,
        0 <= n <= m,
    ensures
        0 <= below_pages(t, pagesize, n) <= below_pages(t, pagesize, m),
    decreases t, m,
{
    if m > 0 {
        let key = tree::listing(t)[m - 1].0;
        if t.items.contains_key(key) && t.items[key] is Bucket {
            let child = t.items[key]->Bucket_0;
            let len = tree::listing(child).len() as int;
            lemma_below_pages(child, pagesize, len, len);
            lemma_body_len(tree::listing(child), len);
            assert(tree::listing(child).take(len) =~= tree::listing(child));
            lemma_whole_pages(block_len(child), pagesize);
        }
        lemma_below_pages(t, pagesize, if n < m {
            n
        } else {
            m - 1
        }, m - 1);
    }
}

/// A bucket takes at least a page.
pub proof fn lemma_pages_of(t: Tree, pagesize: int)
    requires
        pagesize > 0,
    ensures
        pages_of(t, pagesize) > 0,
        block_len(t) <= whole_pages(block_len(t), pagesize) * pagesize,
        whole_pages(block_len(t), pagesize) > 0,
        0 <= below_pages(t, pagesize, tree::listing(t).len() as int),
        block_len(t) >= DATA_OFFSET + CHECKSUM_SIZE,
{
    let l = tree::listing(t);
    let len = l.len() as int;
    lemma_below_pages(t, pagesize, len, len);
    lemma_body_len(l, len);
    assert(l.take(len) =~= l);
    lemma_whole_pages(block_len(t), pagesize);
}

/// A nested bucket takes fewer pages than the one that holds it.
pub proof fn lemma_nested_pages(t: Tree, pagesize: int, i: int)
    requires
        pagesize > 0,
        0 <= i < tree::listing(t).len(),
        t.items.contains_key(tree::listing(t)[i].0),
        t.items[tree::listing(t)[i].0] is Bucket,
    ensures
        pages_of(t.items[tree::listing(t)[i].0]->Bucket_0, pagesize) < pages_of(t, pagesize),
{
    lemma_pages_of(t, pagesize);
    lemma_below_pages(t, pagesize, i, i);
    lemma_below_pages(t, pagesize, i + 1, tree::listing(t).len() as int);
}

/// Counts the pages that some bytes take.
pub fn pages_for(len: usize, pagesize: usize) -> (r: usize)
    requires
        pagesize > 1,
        len > 0,
    ensures
        r == whole_pages(len as int, pagesize as int),
{
    let full: usize = len / pagesize;
    let ghost ps = pagesize as int;
    proof {
        vstd::arithmetic::div_mod::lemma_fundamental_div_mod(len as int, ps);
        lemma_whole_pages(len as int, ps);
        let q = whole_pages(len as int, ps);
        assert(ps * full == full * ps) by (nonlinear_arith);
        assert(full < len) by (nonlinear_arith)
            requires
                full * ps <= len,
                ps > 1,
                len > 0,
        ;
        assert(q == if len % pagesize == 0 {
            full as int
        } else {
            full + 1
        }) by (nonlinear_arith)
            requires
                len == full * ps + len % pagesize,
                0 <= len % pagesize < ps,
                len <= q * ps < len + ps,
        ;
    }
    if len % pagesize == 0 {
        full
    } else {
        full + 1
    }
}

/// Counts the pages that a bucket takes with all that is in it, unless they are
/// more than can be addressed.
pub fn count_pages(bucket: &Node, pagesize: usize) -> (r: Option<usize>)
    requires
        bucket.wf(),
        pagesize >= 1024,
    ensures
        match r {
            Some(n) => n == pages_of(bucket@, pagesize as int) && n * pagesize <= usize::MAX,
            None => pages_of(bucket@, pagesize as int) * pagesize > usize::MAX,
        },
    decreases bucket@,
{
    let ghost t = bucket@;
    let ghost s = tree::listing(t);
    let ghost ps = pagesize as int;
    let mut len: usize = DATA_OFFSET + CHECKSUM_SIZE;
    let mut pages: usize = 0;
    let mut i: usize = 0;
    proof {
        bucket.lemma_leaves();
        lemma_pages_of(t, ps);
        assert(s.take(0) =~= Seq::<(Seq<u8>, Item)>::empty());
    }
    while i < bucket.len()
        invariant
            bucket.wf(),
            t == bucket@,
            s == tree::listing(t),
            s == tree::items_listed(bucket.leaves()),
            ps == pagesize,
            pagesize >= 1024,
            i <= s.len(),
            len == DATA_OFFSET + CHECKSUM_SIZE + body_len(s.take(i as int)),
            pages == below_pages(t, ps, i as int),
        decreases s.len() - i,
    {
        let key: &Vec<u8> = bucket.key_at(i);
        let leaf: &Leaf = bucket.leaf_at(i);
        proof {
            bucket.lemma_leaves();
            leaf.lemma_item();
            assert(s[i as int] == (key@, leaf.item()));
            lemma_body_len(s, i as int);
            lemma_body_len(s, i + 1);
            lemma_below_pages(t, ps, i + 1, s.len() as int);
            lemma_pages_of(t, ps);
        }
        let ghost all = pages_of(t, ps);
        let ghost own = whole_pages(block_len(t), ps);
        proof {
            assert(all * ps >= own * ps) by (nonlinear_arith)
                requires
                    all >= own,
                    ps >= 0,
            ;
        }
        let value_len: usize = match leaf {
            Leaf::Kv(value) => value.len(),
            Leaf::Bucket(child) => {
                proof {
                    assert(t.items.contains_key(key@) && t.items[key@] == Item::Bucket(child@));
                    assert(decreases_to!(t => t.items[key@]->Bucket_0));
                    lemma_pages_of(child@, ps);
                }
                let ghost part = pages_of(child@, ps);
                proof {
                    assert(all * ps >= part * ps) by (nonlinear_arith)
                        requires
                            all >= part,
                            ps >= 0,
                    ;
                }
                let inner: usize = match count_pages(&**child, pagesize) {
                    Some(inner) => inner,
                    None => return None,
                };
                pages = match pages.checked_add(inner) {
                    Some(pages) => pages,
                    None => {
                        proof {
                            assert(all * ps > usize::MAX) by (nonlinear_arith)
                                requires
                                    all > usize::MAX,
                                    ps >= 1,
                            ;
                        }
                        return None;
                    },
                };
                16
            },
        };
        len = match len.checked_add(LEAF_SIZE) {
            Some(len) => len,
            None => return None,
        };
        len = match len.checked_add(key.len()) {
            Some(len) => len,
            None => return None,
        };
        len = match len.checked_add(value_len) {
            Some(len) => len,
            None => return None,
        };
        i = i + 1;
    }
    proof {
        bucket.lemma_leaves();
        assert(s.take(i as int) =~= s);
        lemma_pages_of(t, ps);
    }
    let ghost all = pages_of(t, ps);
    let total: usize = match pages.checked_add(pages_for(len, pagesize)) {
        Some(total) => total,
        None => {
            proof {
                assert(all * ps > usize::MAX) by (nonlinear_arith)
                    requires
                        all > usize::MAX,
                        ps >= 1,
                ;
            }
            return None;
        },
    };
    match total.checked_mul(pagesize) {
        Some(_) => Some(total),
        None => None,
    }
}

/// Whether element `i` of a block is an entry.
pub open spec fn entry_held(b: Seq<u8>, i: int, e: (Seq<u8>, Item)) -> bool {
    &&& cursor::data_at(b, i) == index::data_of(e)
    &&& e.1 matches Item::Bucket(child) ==> page::leaf_value(b, i).len() == 16 && BucketMeta::of(
        page::leaf_value(b, i),
    ).next_int == child.next_int
}

/// Whether the pages of a file from `root` on are a bucket with all that is in
/// it, and lie between two pages.
pub open spec fn holds(src: Source, root: u64, t: Tree, from: int, to: int) -> bool
    decreases t,
{
    let b = cursor::node_of(src, root)->Ok_0;
    let l = tree::listing(t);
    &&& cursor::node_of(src, root) is Ok
    &&& cursor::is_leaf(b)
    &&& cursor::count_of(b) == l.len()
    &&& from <= root && root + page::header_of(b).overflow < to
    &&& forall|i: int| 0 <= i < l.len() ==> entry_held(b, i, #[trigger] l[i])
    &&& forall|i: int|
        0 <= i < l.len() && t.items.contains_key((#[trigger] l[i]).0) && t.items[l[i].0] is Bucket
            ==> holds(
            src,
            BucketMeta::of(page::leaf_value(b, i)).root_page,
            t.items[l[i].0]->Bucket_0,
            from,
            to,
        )
}

/// What lies between two pages lies between any around them.
pub proof fn lemma_holds_wider(
    src: Source,
    root: u64,
    t: Tree,
    from: int,
    to: int,
    low: int,
    high: int,
)
    requires
        holds(src, root, t, from, to),
        low <= from,
        to <= high,
    ensures
        holds(src, root, t, low, high),
    decreases t,
{
    let b = cursor::node_of(src, root)->Ok_0;
    let l = tree::listing(t);
    assert forall|i: int|
        0 <= i < l.len() && t.items.contains_key((#[trigger] l[i]).0)
            && t.items[l[i].0] is Bucket implies holds(
        src,
        BucketMeta::of(page::leaf_value(b, i)).root_page,
        t.items[l[i].0]->Bucket_0,
        low,
        high,
    ) by {
        assert(decreases_to!(t => t.items[l[i].0]->Bucket_0));
        lemma_holds_wider(
            src,
            BucketMeta::of(page::leaf_value(b, i)).root_page,
            t.items[l[i].0]->Bucket_0,
            from,
            to,
            low,
            high,
        );
    }
}

/// Whether blocks stand in a file, sealed if its version of the format asks for
/// it.
pub open spec fn laid(src: Source, blocks: Seq<DirtyBlock>) -> bool {
    &&& src.buf.len() <= usize::MAX
    &&& forall|i: int|
        0 <= i < blocks.len() ==> {
            let at = (#[trigger] blocks[i]).page_id * src.pagesize;
            let len = blocks[i].bytes@.len();
            &&& at + len <= src.buf.len()
            &&& src.buf.subrange(at, at + len) == page::sealed_in(blocks[i].bytes@, src.version)
        }
}

/// Whether blocks fill the pages from one to before another, one after the
/// other.
pub open spec fn runs(blocks: Seq<DirtyBlock>, from: int, to: int, pagesize: int) -> bool
    decreases blocks.len(),
{
    if blocks.len() == 0 {
        from == to
    } else {
        let last = blocks.last();
        let pages = to - last.page_id;
        &&& pages > 0
        &&& last.bytes@.len() == pages * pagesize
        &&& runs(blocks.drop_last(), from, last.page_id as int, pagesize)
    }
}

/// The record of a bucket that is laid out from a page on.
pub open spec fn packed_root(t: Tree, pagesize: int, start: int) -> BucketMeta {
    BucketMeta {
        root_page: (start + below_pages(t, pagesize, tree::listing(t).len() as int)) as u64,
        next_int: t.next_int,
    }
}

/// The first entries as they stand in a block.
spec fn rendered(
    leaves: Seq<LeafEntry>,
    l: Seq<(Seq<u8>, Item)>,
    t: Tree,
    pagesize: int,
    start: int,
) -> bool {
    forall|i: int|
        0 <= i < leaves.len() ==> (#[trigger] leaves[i]).key@ == l[i].0 && match l[i].1 {
            Item::Value(value) => leaves[i].node_type == NODE_DATA && leaves[i].value@ == value,
            Item::Bucket(child) => leaves[i].node_type == NODE_BUCKET && leaves[i].value@
                == packed_root(child, pagesize, start + below_pages(t, pagesize, i)).record(),
        }
}

/// Whether the buckets among the first `n` entries stand in a file, between two
/// pages.
spec fn nested_hold(
    src: Source,
    l: Seq<(Seq<u8>, Item)>,
    t: Tree,
    pagesize: int,
    start: int,
    end: int,
    n: int,
) -> bool {
    forall|i: int|
        0 <= i < n && (#[trigger] l[i]).1 is Bucket ==> holds(
            src,
            packed_root(
                l[i].1->Bucket_0,
                pagesize,
                start + below_pages(t, pagesize, i),
            ).root_page,
            l[i].1->Bucket_0,
            start,
            end,
        )
}

proof fn lemma_leaf_data(leaves: Seq<LeafEntry>, leaf: LeafEntry)
    ensures
        bytes::cat(node::leaf_data(leaves.push(leaf))).len() == bytes::cat(
            node::leaf_data(leaves),
        ).len() + leaf.key@.len() + leaf.value@.len(),
{
    let all = node::leaf_data(leaves.push(leaf));
    assert(all.drop_last() =~= node::leaf_data(leaves));
    assert(all.last() == leaf.key@ + leaf.value@);
}

/// Blocks that fill pages are long enough to be sealed, lie within these pages,
/// and are no longer than they are.
pub proof fn lemma_runs_fit(
    blocks: Seq<DirtyBlock>,
    from: int,
    to: int,
    pagesize: int,
    end: int,
)
    requires
        runs(blocks, from, to, pagesize),
        1024 <= pagesize <= u64::MAX,
        0 <= from,
        to <= end,
        end * pagesize <= u64::MAX,
    ensures
        from <= to,
        writer::blocks_fit(blocks, pagesize as u64, u64::MAX as int),
        writer::total_bytes(blocks) == (to - from) * pagesize,
    decreases blocks.len(),
{
    if blocks.len() > 0 {
        let last = blocks.last();
        let mid = last.page_id as int;
        let front = blocks.drop_last();
        lemma_runs_fit(front, from, mid, pagesize, end);
        let pages = to - mid;
        assert(pages * pagesize >= pagesize) by (nonlinear_arith)
            requires
                pages >= 1,
                pagesize >= 0,
        ;
        assert(mid * pagesize + pages * pagesize == to * pagesize) by (nonlinear_arith)
            requires
                pages == to - mid,
        ;
        assert(to * pagesize <= end * pagesize) by (nonlinear_arith)
            requires
                to <= end,
                pagesize >= 0,
        ;
        assert((mid - from) * pagesize + pages * pagesize == (to - from) * pagesize)
            by (nonlinear_arith)
            requires
                pages == to - mid,
        ;
        assert forall|i: int| 0 <= i < blocks.len() implies CHECKSUM_SIZE <= (
        #[trigger] blocks[i]).bytes@.len() && blocks[i].page_id * (pagesize as u64)
            + blocks[i].bytes@.len() <= u64::MAX by {
            if i < front.len() {
                assert(front[i] == blocks[i]);
            } else {
                assert(blocks[i] == last);
            }
        }
    } else {
        assert((to - from) * pagesize == 0) by (nonlinear_arith)
            requires
                to == from,
        ;
    }
}

/// Blocks that fill pages lie within these pages, and apart from one another.
pub proof fn lemma_runs_apart(blocks: Seq<DirtyBlock>, from: int, to: int, pagesize: int)
    requires
        runs(blocks, from, to, pagesize),
        pagesize > 0,
    ensures
        from <= to,
        forall|i: int|
            0 <= i < blocks.len() ==> from <= (#[trigger] blocks[i]).page_id
                && blocks[i].page_id * pagesize + blocks[i].bytes@.len() <= to * pagesize,
        forall|i: int, j: int|
            0 <= i < j < blocks.len() ==> (#[trigger] blocks[i]).page_id * pagesize
                + blocks[i].bytes@.len() <= (#[trigger] blocks[j]).page_id * pagesize,
    decreases blocks.len(),
{
    if blocks.len() > 0 {
        let last = blocks.last();
        let front = blocks.drop_last();
        let mid = last.page_id as int;
        lemma_runs_apart(front, from, mid, pagesize);
        assert(mid * pagesize + (to - mid) * pagesize == to * pagesize) by (nonlinear_arith);
        assert(mid * pagesize <= to * pagesize) by (nonlinear_arith)
            requires
                mid <= to,
                pagesize >= 0,
        ;
        assert forall|i: int| 0 <= i < blocks.len() implies from <= (#[trigger] blocks[i]).page_id
            && blocks[i].page_id * pagesize + blocks[i].bytes@.len() <= to * pagesize by {
            if i < front.len() {
                assert(front[i] == blocks[i]);
            }
        }
        assert forall|i: int, j: int| 0 <= i < j < blocks.len() implies (
        #[trigger] blocks[i]).page_id * pagesize + blocks[i].bytes@.len() <= (
        #[trigger] blocks[j]).page_id * pagesize by {
            assert(front[i] == blocks[i]);
            if j < front.len() {
                assert(front[j] == blocks[j]);
            } else {
                assert(blocks[j] == last);
            }
        }
    }
}

proof fn lemma_runs_join(
    a: Seq<DirtyBlock>,
    b: Seq<DirtyBlock>,
    from: int,
    mid: int,
    to: int,
    pagesize: int,
)
    requires
        runs(a, from, mid, pagesize),
        runs(b, mid, to, pagesize),
    ensures
        runs(a + b, from, to, pagesize),
    decreases b.len(),
{
    if b.len() == 0 {
        assert(a + b =~= a);
    } else {
        lemma_runs_join(a, b.drop_last(), from, mid, b.last().page_id as int, pagesize);
        assert((a + b).drop_last() =~= a + b.drop_last());
        assert((a + b).last() == b.last());
    }
}

pub proof fn lemma_laid_part(src: Source, all: Seq<DirtyBlock>, part: Seq<DirtyBlock>, at: int)
    requires
        laid(src, all),
        0 <= at,
        at + part.len() <= all.len(),
        forall|i: int| 0 <= i < part.len() ==> #[trigger] part[i] == all[at + i],
    ensures
        laid(src, part),
{
    assert forall|i: int| 0 <= i < part.len() implies ({
        let from = (#[trigger] part[i]).page_id * src.pagesize;
        let len = part[i].bytes@.len();
        &&& from + len <= src.buf.len()
        &&& src.buf.subrange(from, from + len) == page::sealed_in(part[i].bytes@, src.version)
    }) by {
        assert(part[i] == all[at + i]);
    }
}

/// A block that was laid out for entries holds them.
proof fn lemma_block_holds(
    src: Source,
    id: u64,
    leaves: Vec<LeafEntry>,
    t: Tree,
    start: int,
    end: int,
    pages: int,
    block: DirtyBlock,
)
    requires
        start <= id,
        id + pages <= end,
        src.pagesize >= 1024,
        laid(src, seq![block]),
        pages > 0,
        block.page_id == id,
        block.bytes@.len() == pages * src.pagesize,
        block.bytes@ == node::node_block(
            node::Node { page_id: id, data: NodeData::Leaves(leaves) },
            (pages - 1) as u64,
            block.bytes@.len() as int,
        ),
        node::node_fits(
            node::Node { page_id: id, data: NodeData::Leaves(leaves) },
            block.bytes@.len() as int,
        ),
        pages <= u64::MAX,
        leaves@.len() == tree::listing(t).len(),
        rendered(leaves@, tree::listing(t), t, src.pagesize as int, start),
        nested_hold(
            src,
            tree::listing(t),
            t,
            src.pagesize as int,
            start,
            end,
            tree::listing(t).len() as int,
        ),
        forall|i: int|
            0 <= i < tree::listing(t).len() ==> t.items.contains_key(
                (#[trigger] tree::listing(t)[i]).0,
            ) && t.items[tree::listing(t)[i].0] == tree::listing(t)[i].1,
    ensures
        holds(src, id, t, start, end),
{
    let ps = src.pagesize as int;
    let n = node::Node { page_id: id, data: NodeData::Leaves(leaves) };
    let l = tree::listing(t);
    let one = seq![block];
    assert(one[0] == block);
    let at = id * src.pagesize;
    let len = block.bytes@.len();
    let b = src.buf.subrange(at, at + len);
    assert(at >= 0) by (nonlinear_arith)
        requires
            at == id * src.pagesize,
            id >= 0,
            src.pagesize >= 0,
    ;
    assert(len >= 1024) by (nonlinear_arith)
        requires
            len == pages * src.pagesize,
            pages >= 1,
            src.pagesize >= 1024,
    ;
    node::lemma_leaf_heads_len(leaves@);
    node::law_written_node_reads_back(
        src.buf,
        n,
        (pages - 1) as u64,
        src.pagesize,
        src.version,
        b,
    );
    reveal(cursor::node_of);
    assert(cursor::node_of(src, id) == Ok::<Seq<u8>, crate::error::Error>(b));
    assert forall|i: int| 0 <= i < l.len() implies entry_held(b, i, #[trigger] l[i]) by {
        assert(leaves@[i].key@ == l[i].0);
        assert(page::leaf_at(b, i).node_type == leaves@[i].node_type);
        match l[i].1 {
            Item::Value(_) => {},
            Item::Bucket(child) => {
                let m = packed_root(child, ps, start + below_pages(t, ps, i));
                meta::law_bucket_record_round_trip(m);
                bytes::lemma_le_of_len(m.root_page as nat, 8);
                bytes::lemma_le_of_len(m.next_int as nat, 8);
            },
        }
    }
    assert forall|i: int|
        0 <= i < l.len() && t.items.contains_key((#[trigger] l[i]).0)
            && t.items[l[i].0] is Bucket implies holds(
        src,
        BucketMeta::of(page::leaf_value(b, i)).root_page,
        t.items[l[i].0]->Bucket_0,
        start,
        end,
    ) by {
        assert(leaves@[i].key@ == l[i].0);
        assert(page::leaf_at(b, i).node_type == leaves@[i].node_type);
        let child = l[i].1->Bucket_0;
        meta::law_bucket_record_round_trip(
            packed_root(child, ps, start + below_pages(t, ps, i)),
        );
    }
}

/// Lays a bucket out from a page on, with all that is in it, and returns its
/// record and the page after the last one used. The blocks are still to be sealed and written; once they stand in a file, it holds the
/// bucket.
pub fn pack_bucket(
    bucket: &Node,
    pagesize: usize,
    start: u64,
    blocks: &mut Vec<DirtyBlock>,
) -> (r: (BucketMeta, u64))
    requires
        bucket.wf(),
        pagesize >= 1024,
        (start + pages_of(bucket@, pagesize as int)) * pagesize <= usize::MAX,
    ensures
        r.0 == packed_root(bucket@, pagesize as int, start as int),
        r.1 == start + pages_of(bucket@, pagesize as int),
        old(blocks)@.len() <= final(blocks)@.len(),
        final(blocks)@.take(old(blocks)@.len() as int) == old(blocks)@,
        runs(
            final(blocks)@.skip(old(blocks)@.len() as int),
            start as int,
            start + pages_of(bucket@, pagesize as int),
            pagesize as int,
        ),
        forall|src: Source|
            src.pagesize == pagesize && #[trigger] laid(
                src,
                final(blocks)@.skip(old(blocks)@.len() as int),
            ) ==> holds(
                src,
                r.0.root_page,
                bucket@,
                start as int,
                start + pages_of(bucket@, pagesize as int),
            ),
    decreases bucket@,
{
    let ghost t = bucket@;
    let ghost s = tree::listing(t);
    let ghost ps = pagesize as int;
    let ghost end_page = start + pages_of(t, ps);
    let ghost n0 = blocks@.len() as int;
    let ghost given = blocks@;
    let mut leaves: Vec<LeafEntry> = Vec::new();
    let mut next: u64 = start;
    let mut size: usize = 0;
    let mut i: usize = 0;
    proof {
        bucket.lemma_leaves();
        lemma_pages_of(t, ps);
        assert(s.take(0) =~= Seq::<(Seq<u8>, Item)>::empty());
        assert(node::leaf_data(leaves@) =~= Seq::<Seq<u8>>::empty());
        assert(blocks@.skip(n0) =~= Seq::<DirtyBlock>::empty());
        assert(blocks@.take(n0) =~= given);
        lemma_fits(t, ps, start as int);
    }
    while i < bucket.len()
        invariant
            bucket.wf(),
            t == bucket@,
            s == tree::listing(t),
            s == tree::items_listed(bucket.leaves()),
            ps == pagesize,
            pagesize >= 1024,
            (start + pages_of(t, ps)) * ps <= usize::MAX,
            end_page == start + pages_of(t, ps),
            start + pages_of(t, ps) <= usize::MAX,
            block_len(t) <= usize::MAX,
            i <= s.len(),
            leaves@.len() == i,
            n0 == given.len(),
            given == old(blocks)@,
            n0 <= blocks@.len(),
            blocks@.take(n0) == given,
            next == start + below_pages(t, ps, i as int),
            rendered(leaves@, s, t, ps, start as int),
            bytes::cat(node::leaf_data(leaves@)).len() + i * LEAF_SIZE == body_len(
                s.take(i as int),
            ),
            size == body_len(s.take(i as int)),
            runs(blocks@.skip(n0), start as int, next as int, ps),
            forall|src: Source|
                src.pagesize == pagesize && #[trigger] laid(src, blocks@.skip(n0)) ==> nested_hold(
                    src,
                    s,
                    t,
                    ps,
                    start as int,
                    end_page,
                    i as int,
                ),
        decreases s.len() - i,
    {
        let key: &Vec<u8> = bucket.key_at(i);
        let leaf: &Leaf = bucket.leaf_at(i);
        let ghost was = blocks@;
        let ghost so_far = leaves@;
        let ghost from = next;
        proof {
            bucket.lemma_leaves();
            leaf.lemma_item();
            assert(s[i as int] == (key@, leaf.item()));
            lemma_body_len(s, i as int);
            lemma_body_len(s, i + 1);
            lemma_below_pages(t, ps, i + 1, s.len() as int);
            lemma_pages_of(t, ps);
        }
        let entry: LeafEntry = match leaf {
            Leaf::Kv(value) => LeafEntry {
                node_type: NODE_DATA,
                key: owned(key),
                value: owned(value),
            },
            Leaf::Bucket(child) => {
                proof {
                    assert(t.items.contains_key(key@) && t.items[key@] == Item::Bucket(child@));
                    assert(decreases_to!(t => t.items[key@]->Bucket_0));
                    lemma_pages_of(child@, ps);
                    let a = next + pages_of(child@, ps);
                    let b = start + pages_of(t, ps);
                    assert(a * ps <= b * ps) by (nonlinear_arith)
                        requires
                            a <= b,
                            ps >= 0,
                    ;
                }
                let (inner, end): (BucketMeta, u64) = pack_bucket(
                    &**child,
                    pagesize,
                    next,
                    blocks,
                );
                next = end;
                LeafEntry { node_type: NODE_BUCKET, key: owned(key), value: inner.to_bytes() }
            },
        };
        size = size + LEAF_SIZE + entry.key.len() + entry.value.len();
        proof {
            lemma_leaf_data(leaves@, entry);
        }
        leaves.push(entry);
        proof {
            let new = blocks@.skip(was.len() as int);
            assert(blocks@.take(n0) =~= given) by {
                assert(blocks@.take(was.len() as int).take(n0) =~= blocks@.take(n0));
                assert(was.take(n0) == given);
            }
            assert(blocks@.skip(n0) =~= was.skip(n0) + new) by {
                assert(blocks@.take(was.len() as int) =~= was);
                assert forall|k: int| 0 <= k < was.len() - n0 implies #[trigger] blocks@.skip(
                    n0,
                )[k] == was.skip(n0)[k] by {
                    assert(blocks@.take(was.len() as int)[n0 + k] == was[n0 + k]);
                }
            }
            if leaf is Kv {
                assert(blocks@ == was);
                assert(new =~= Seq::<DirtyBlock>::empty());
                assert(was.skip(n0) + new =~= was.skip(n0));
            } else {
                lemma_runs_join(was.skip(n0), new, start as int, from as int, next as int, ps);
            }
            assert forall|k: int| 0 <= k < leaves@.len() implies (#[trigger] leaves@[k]).key@
                == s[k].0 && match s[k].1 {
                Item::Value(value) => leaves@[k].node_type == NODE_DATA && leaves@[k].value@
                    == value,
                Item::Bucket(child) => leaves@[k].node_type == NODE_BUCKET && leaves@[k].value@
                    == packed_root(child, ps, start + below_pages(t, ps, k)).record(),
            } by {
                if k < i {
                    assert(leaves@[k] == so_far[k]);
                }
            }
            assert forall|src: Source|
                src.pagesize == pagesize && #[trigger] laid(
                    src,
                    blocks@.skip(n0),
                ) implies nested_hold(src, s, t, ps, start as int, end_page, i + 1) by {
                lemma_laid_part(src, blocks@.skip(n0), was.skip(n0), 0);
                lemma_laid_part(src, blocks@.skip(n0), new, was.len() - n0);
                assert(nested_hold(src, s, t, ps, start as int, end_page, i as int));
                if leaf is Bucket {
                    let child = s[i as int].1->Bucket_0;
                    lemma_below_pages(t, ps, i as int, i as int);
                    lemma_holds_wider(
                        src,
                        packed_root(child, ps, from as int).root_page,
                        child,
                        from as int,
                        next as int,
                        start as int,
                        end_page,
                    );
                }
            }
        }
        i = i + 1;
    }
    proof {
        bucket.lemma_leaves();
        assert(s.take(i as int) =~= s);
        lemma_pages_of(t, ps);
        node::lemma_leaf_heads_len(leaves@);
    }
    let need: usize = DATA_OFFSET + size + CHECKSUM_SIZE;
    let own: usize = pages_for(need, pagesize);
    proof {
        let end = start + pages_of(t, ps);
        assert(own * ps <= end * ps) by (nonlinear_arith)
            requires
                own <= end,
                ps >= 0,
        ;
    }
    let len: usize = own * pagesize;
    let root: BucketMeta = BucketMeta { root_page: next, next_int: bucket.next_int() };
    let made: node::Node = node::Node { page_id: next, data: NodeData::Leaves(leaves) };
    let block: Vec<u8> = write_node(&made, (own - 1) as u64, len);
    let ghost was = blocks@;
    let dirty: DirtyBlock = DirtyBlock { page_id: next, bytes: block };
    let ghost last = dirty;
    blocks.push(dirty);
    proof {
        let new = blocks@.skip(n0);
        assert(blocks@.take(n0) =~= given) by {
            assert(was.take(n0) == given);
        }
        assert(new.drop_last() =~= was.skip(n0));
        assert(new.last() == last);
        assert forall|k: int| 0 <= k < s.len() implies t.items.contains_key(
            (#[trigger] s[k]).0,
        ) && t.items[s[k].0] == s[k].1 by {
            let held = bucket.leaves()[k];
            assert(s[k] == (held.0, held.1.item()));
        }
        let kept = made.data->Leaves_0;
        assert forall|src: Source|
            src.pagesize == pagesize && #[trigger] laid(src, new) implies holds(
            src,
            root.root_page,
            t,
            start as int,
            end_page,
        ) by {
            lemma_laid_part(src, new, was.skip(n0), 0);
            lemma_laid_part(src, new, seq![last], was.len() - n0);
            lemma_block_holds(src, next, kept, t, start as int, end_page, own as int, last);
        }
    }
    (root, next + own as u64)
}

/// What fits as a whole fits in its parts.
proof fn lemma_fits(t: Tree, pagesize: int, start: int)
    requires
        pagesize >= 1024,
        start >= 0,
        (start + pages_of(t, pagesize)) * pagesize <= usize::MAX,
    ensures
        start + pages_of(t, pagesize) <= usize::MAX,
        block_len(t) <= usize::MAX,
{
    lemma_pages_of(t, pagesize);
    let end = start + pages_of(t, pagesize);
    let own = whole_pages(block_len(t), pagesize);
    assert(end <= end * pagesize) by (nonlinear_arith)
        requires
            end >= 0,
            pagesize >= 1,
    ;
    assert(own * pagesize <= end * pagesize) by (nonlinear_arith)
        requires
            own <= end,
            pagesize >= 0,
    ;
}

} // verus!
