//! What holds of commits of buckets: they are read back, and they spare what
//! others still read.

use crate::api::tree::{self, Tree};
use crate::error::Error;
use crate::storage::commit;
use crate::storage::cursor::{self, Source};
use crate::storage::meta::{self, BucketMeta, Meta, MAGIC_VALUE};
use crate::storage::pack;
use crate::storage::pack_laws;
use crate::storage::page::{self, RetiredPage, FORMAT_VERSION};
use crate::storage::writer::{CommitPlan, DirtyBlock, FileWrite};
use vstd::prelude::*;

verus! {

/// Whether a write stands in a file.
pub open spec fn stands(buf: Seq<u8>, w: FileWrite) -> bool {
    w.offset + w.bytes@.len() <= buf.len() && buf.subrange(
        w.offset as int,
        w.offset + w.bytes@.len(),
    ) == w.bytes@
}

/// Once the writes of a commit stand in its file, its meta record counts, and
/// the buckets that were committed are read back, and so is the freelist.
pub proof fn law_committed_buckets_read_back(
    src: Source,
    meta: Meta,
    t: Tree,
    free: Seq<RetiredPage>,
    horizon: u64,
    current: u64,
    increment: u64,
    maximum: Option<u64>,
    start: int,
    blocks: Seq<DirtyBlock>,
    plan: CommitPlan,
)
    requires
        commit::tree_planned(
            meta,
            t,
            free,
            horizon,
            src.pagesize,
            current,
            increment,
            maximum,
            start,
            blocks,
            Ok::<CommitPlan, Error>(plan),
        ),
        src.pagesize >= 1024,
        src.version == meta.version,
        1 <= meta.version <= FORMAT_VERSION,
        meta.magic == MAGIC_VALUE,
        meta.pagesize == src.pagesize,
        meta.meta_page <= 1,
        meta.tx_id > 0,
        pack_laws::listable(t),
        pack_laws::only_buckets(t),
        (start + commit::needed_pages(t, meta.num_pages as int, src.pagesize as int))
            * src.pagesize <= src.buf.len() <= usize::MAX,
        stands(src.buf, plan.meta_write),
        forall|i: int| 0 <= i < plan.data@.len() ==> stands(src.buf, #[trigger] plan.data@[i]),
        match meta::valid_meta(src.buf, meta.meta_page as u64, src.pagesize) {
            None => true,
            Some(other) => other.tx_id < meta.tx_id,
        },
    ensures
        meta::current_meta(src.buf, src.pagesize) == Ok::<Meta, Error>(plan.meta),
        commit::snapshot_of(src, plan.meta.root) == Ok::<Tree, Error>(t),
        commit::freelist_in(src, plan.meta.freelist_page) == Ok::<Seq<RetiredPage>, Error>(
            commit::released(
                free,
                start,
                commit::needed_pages(t, meta.num_pages as int, src.pagesize as int),
                meta.tx_id,
                meta.num_pages as int,
            ),
        ),
        meta::valid_meta(src.buf, plan.meta.meta_page as u64, src.pagesize) == Some(plan.meta),
        meta::one_page(src.buf, plan.meta.meta_page as u64, src.pagesize),
        pack::holds(
            src,
            plan.meta.root.root_page,
            t,
            start,
            start + pack::pages_of(t, src.pagesize as int),
        ),
        plan.meta.freelist_page + commit::list_span(src, plan.meta.freelist_page) == start
            + commit::needed_pages(t, meta.num_pages as int, src.pagesize as int),
{
    let ps = src.pagesize as int;
    let need = commit::needed_pages(t, meta.num_pages as int, ps);
    let end = start + need;
    let next = commit::tree_meta(meta, t, ps, start);
    assert(pack::laid(src, blocks)) by {
        assert forall|i: int| 0 <= i < blocks.len() implies ({
            let at = (#[trigger] blocks[i]).page_id * src.pagesize;
            let len = blocks[i].bytes@.len();
            &&& at + len <= src.buf.len()
            &&& src.buf.subrange(at, at + len) == page::sealed_in(blocks[i].bytes@, src.version)
        }) by {
            let w = plan.data@[i];
            assert(stands(src.buf, w));
        }
    }
    pack::lemma_pages_of(t, ps);
    pack::lemma_whole_pages(commit::list_len(meta.num_pages as int), ps);
    assert(end <= end * ps) by (nonlinear_arith)
        requires
            end >= 0,
            ps >= 1,
    ;
    assert(2 * ps <= end * ps) by (nonlinear_arith)
        requires
            end >= 2,
            ps >= 0,
    ;
    pack_laws::law_held_buckets_are_read_whole(
        src,
        next.root.root_page,
        t,
        start,
        start + pack::pages_of(t, ps),
        commit::nothing_skipped(),
    );
    let published = meta::published(next);
    assert(published.root == next.root);
    let before = Meta { tx_id: (meta.tx_id - 1) as u64, ..meta };
    meta::law_published_meta_counts(src.buf, before, next, src.pagesize);
    assert(commit::snapshot_of(src, plan.meta.root)->Ok_0 == t);
}

/// What a commit writes before it is published lies in pages that may be used
/// again, or behind those of the file: no page that a reader may still see is
/// touched, nor is a meta page. No two writes overlap.
pub proof fn law_commit_spares_what_is_read(
    meta: Meta,
    t: Tree,
    free: Seq<RetiredPage>,
    horizon: u64,
    pagesize: u64,
    current: u64,
    increment: u64,
    maximum: Option<u64>,
    start: int,
    blocks: Seq<DirtyBlock>,
    plan: CommitPlan,
    i: int,
    p: int,
)
    requires
        commit::tree_planned(
            meta,
            t,
            free,
            horizon,
            pagesize,
            current,
            increment,
            maximum,
            start,
            blocks,
            Ok::<CommitPlan, Error>(plan),
        ),
        pagesize >= 1024,
        0 <= i < plan.data@.len(),
    ensures
        plan.data@[i].offset >= 2 * pagesize,
        2 <= p < meta.num_pages && !commit::reusable(free, horizon, p) ==> plan.data@[i].offset
            + plan.data@[i].bytes@.len() <= p * pagesize || plan.data@[i].offset >= (p + 1)
            * pagesize,
        forall|j: int|
            i < j < plan.data@.len() ==> plan.data@[i].offset + plan.data@[i].bytes@.len() <= (
            #[trigger] plan.data@[j]).offset,
{
    let ps = pagesize as int;
    let need = commit::needed_pages(t, meta.num_pages as int, ps);
    let end = start + need;
    pack::lemma_runs_apart(blocks, start, end, ps);
    let w = plan.data@[i];
    let id = blocks[i].page_id as int;
    assert(blocks[i].page_id >= start);
    assert(id * ps >= start * ps && start * ps >= 2 * ps) by (nonlinear_arith)
        requires
            id >= start,
            start >= 2,
            ps >= 0,
    ;
    if 2 <= p < meta.num_pages && !commit::reusable(free, horizon, p) {
        if start == commit::behind(meta.num_pages as int) {
            assert((p + 1) * ps <= start * ps) by (nonlinear_arith)
                requires
                    p + 1 <= start,
                    ps >= 0,
            ;
        } else if p < start {
            assert((p + 1) * ps <= start * ps) by (nonlinear_arith)
                requires
                    p + 1 <= start,
                    ps >= 0,
            ;
        } else {
            assert(p >= end) by {
                if p < end {
                    assert(commit::reusable(free, horizon, p));
                }
            }
            assert(end * ps <= p * ps) by (nonlinear_arith)
                requires
                    end <= p,
                    ps >= 0,
            ;
        }
    }
    assert forall|j: int| i < j < plan.data@.len() implies w.offset + w.bytes@.len() <= (
    #[trigger] plan.data@[j]).offset by {
        assert(blocks[i].page_id * ps + blocks[i].bytes@.len() <= blocks[j].page_id * ps);
    }
}

/// Whether two files agree on the bytes between two pages.
pub open spec fn agree(a: Source, b: Source, from: int, to: int) -> bool {
    &&& a.pagesize == b.pagesize
    &&& a.version == b.version
    &&& to * a.pagesize <= a.buf.len() <= usize::MAX
    &&& to * a.pagesize <= b.buf.len() <= usize::MAX
    &&& forall|k: int|
        from * a.pagesize <= k < to * a.pagesize ==> #[trigger] a.buf[k] == b.buf[k]
}

/// A block that lies where two files agree is the same in both.
pub proof fn lemma_same_block(a: Source, b: Source, from: int, to: int, id: u64)
    requires
        agree(a, b, from, to),
        a.pagesize >= 1024,
        0 <= from <= id,
        page::block_of(a.buf, id, a.pagesize, a.version) is Ok,
        id + page::header_of(
            page::block_of(a.buf, id, a.pagesize, a.version)->Ok_0,
        ).overflow < to,
    ensures
        page::block_of(b.buf, id, b.pagesize, b.version) == page::block_of(
            a.buf,
            id,
            a.pagesize,
            a.version,
        ),
{
    let ps = a.pagesize as int;
    let offset = id * a.pagesize;
    let block = page::block_of(a.buf, id, a.pagesize, a.version)->Ok_0;
    let over = page::header_of(block).overflow;
    let len = block.len() as int;
    assert(0 <= from * ps <= offset) by (nonlinear_arith)
        requires
            offset == id * ps,
            0 <= from <= id,
            ps >= 0,
    ;
    let rest = a.buf.skip(offset);
    let h = page::header_of(rest);
    assert((h.overflow + 1) * ps >= ps) by (nonlinear_arith)
        requires
            h.overflow >= 0,
            ps >= 0,
    ;
    assert(block == a.buf.subrange(offset, offset + (h.overflow + 1) * ps));
    assert(rest.take(len) =~= block);
    page::lemma_header_local(rest, block);
    assert(offset + (over + 1) * ps <= to * ps) by (nonlinear_arith)
        requires
            offset == id * ps,
            id + over + 1 <= to,
            ps >= 0,
    ;
    let other = b.buf.skip(offset);
    assert forall|k: int| 0 <= k < len implies block[k] == #[trigger] other[k] by {
        assert(a.buf[offset + k] == b.buf[offset + k]);
    }
    assert(other.take(len) =~= block);
    page::lemma_header_local(other, block);
    assert(b.buf.subrange(offset, offset + len) =~= block);
}

/// Buckets that lie where two files agree are held by both.
pub proof fn law_held_buckets_stay(
    a: Source,
    b: Source,
    root: u64,
    t: Tree,
    from: int,
    to: int,
)
    requires
        agree(a, b, from, to),
        a.pagesize >= 1024,
        0 <= from,
        pack::holds(a, root, t, from, to),
    ensures
        pack::holds(b, root, t, from, to),
    decreases t,
{
    reveal(cursor::node_of);
    let block = cursor::node_of(a, root)->Ok_0;
    lemma_same_block(a, b, from, to, root);
    let l = tree::listing(t);
    assert forall|i: int|
        0 <= i < l.len() && t.items.contains_key((#[trigger] l[i]).0)
            && t.items[l[i].0] is Bucket implies pack::holds(
        b,
        BucketMeta::of(page::leaf_value(block, i)).root_page,
        t.items[l[i].0]->Bucket_0,
        from,
        to,
    ) by {
        assert(decreases_to!(t => t.items[l[i].0]->Bucket_0));
        law_held_buckets_stay(
            a,
            b,
            BucketMeta::of(page::leaf_value(block, i)).root_page,
            t.items[l[i].0]->Bucket_0,
            from,
            to,
        );
    }
}

/// Pages that may be used again are: where enough of them stand in a row, a
/// commit goes there and the file gets no more pages.
pub proof fn law_released_pages_are_used_again(
    meta: Meta,
    t: Tree,
    free: Seq<RetiredPage>,
    horizon: u64,
    pagesize: u64,
    current: u64,
    increment: u64,
    maximum: Option<u64>,
    start: int,
    blocks: Seq<DirtyBlock>,
    r: Result<CommitPlan, Error>,
    run: int,
)
    requires
        commit::tree_planned(
            meta,
            t,
            free,
            horizon,
            pagesize,
            current,
            increment,
            maximum,
            start,
            blocks,
            r,
        ),
        ({
            let need = commit::needed_pages(t, meta.num_pages as int, pagesize as int);
            2 <= run && run + need <= meta.num_pages && commit::all_reusable(
                free,
                horizon,
                run,
                need,
            )
        }),
    ensures
        start <= run,
        commit::tree_meta(meta, t, pagesize as int, start).num_pages == meta.num_pages,
{
    let need = commit::needed_pages(t, meta.num_pages as int, pagesize as int);
    if start > run {
        assert(!commit::all_reusable(free, horizon, run, need));
    }
}

/// No page is lost by a commit: every page that it does not use itself is
/// listed as released, by the transaction that released it, which is the
/// committing one where it was in use before; and no page is listed twice.
pub proof fn law_commit_loses_no_page(
    free: Seq<RetiredPage>,
    start: int,
    need: int,
    tx_id: u64,
    n: int,
    p: int,
)
    requires
        n <= u64::MAX,
    ensures
        ({
            let list = commit::released(free, start, need, tx_id, n);
            &&& commit::retired_in(list, p) == if 2 <= p < n && !(start <= p < start + need) {
                Some(
                    match commit::retired_in(free, p) {
                        Some(id) => id,
                        None => tx_id,
                    },
                )
            } else {
                None
            }
            &&& forall|i: int, j: int|
                0 <= i < j < list.len() ==> (#[trigger] list[i]).page_id < (
                #[trigger] list[j]).page_id
            &&& forall|i: int| 0 <= i < list.len() ==> (#[trigger] list[i]).page_id < n
        }),
    decreases n,
{
    if n > 2 {
        law_commit_loses_no_page(free, start, need, tx_id, n - 1, p);
        let before = commit::released(free, start, need, tx_id, n - 1);
        let list = commit::released(free, start, need, tx_id, n);
        if !(start <= n - 1 < start + need) {
            assert(list.drop_last() =~= before);
            assert(list.last().page_id == n - 1);
        }
    }
}

} // verus!
