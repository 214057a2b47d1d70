//! Commits of whole buckets to a file of pages: where they go, and what is
//! released by them.

use crate::api::tree::{self, Node, Tree};
use crate::error::{Error, Fault};
use crate::storage::cursor::{Pages, Source};
use crate::storage::meta::{BucketMeta, Meta};
use crate::storage::pack::{self, count_pages, pack_bucket, pages_for};
use crate::storage::page::{
    self, Page, RetiredPage, CHECKSUM_SIZE, DATA_OFFSET, RETIRED_SIZE, TYPE_FREELIST,
};
use crate::storage::salvage::{self, salvage, ManifestView, SalvageManifest, Saved};
use crate::storage::writer::{
    self, plan_commit, write_freelist, CommitPlan, DirtyBlock,
};
use vstd::prelude::*;

verus! {

/// The freelist in the block of a page.
pub open spec fn freelist_in(src: Source, id: u64) -> Result<Seq<RetiredPage>, Error> {
    match page::block_of(src.buf, id, src.pagesize, src.version) {
        Err(e) => Err(e),
        Ok(b) => {
            let h = page::header_of(b);
            if h.page_type != TYPE_FREELIST {
                Err(Error::InvalidDB(Fault::One("Found Invalid Freelist Page ", id, "")))
            } else {
                Ok(Seq::new(h.count as nat, |i: int| page::retired_at(b, i)))
            }
        },
    }
}

/// How many pages the block of a freelist takes.
pub open spec fn list_span(src: Source, id: u64) -> int {
    page::header_of(page::block_of(src.buf, id, src.pagesize, src.version)->Ok_0).overflow + 1
}

/// Reads the freelist in the block of a page.
pub fn read_freelist(pages: &Pages<'_>, id: u64) -> (r: Result<Vec<RetiredPage>, Error>)
    ensures
        match (r, freelist_in(pages@, id)) {
            (Ok(entries), Ok(want)) => entries@ == want,
            (Err(e), Err(f)) => e == f,
            _ => false,
        },
{
    let p: Page<'_> = match pages.page(id) {
        Ok(p) => p,
        Err(e) => return Err(e),
    };
    let h: page::PageHeader = p.header();
    if h.page_type != TYPE_FREELIST {
        return Err(Error::InvalidDB(Fault::One("Found Invalid Freelist Page ", id, "")));
    }
    proof {
        p.lemma_count_fits();
    }
    let n: usize = h.count as usize;
    let mut entries: Vec<RetiredPage> = Vec::new();
    let mut i: usize = 0;
    while i < n
        invariant
            i <= n,
            n == h.count,
            p.wf(),
            h == page::header_of(p.block()),
            h.page_type == TYPE_FREELIST,
            entries@ == Seq::new(i as nat, |k: int| page::retired_at(p.block(), k)),
        decreases n - i,
    {
        entries.push(p.retired(i));
        assert(entries@ =~= Seq::new((i + 1) as nat, |k: int| page::retired_at(p.block(), k)));
        i = i + 1;
    }
    Ok(entries)
}

/// Reading all buckets of a file from the record of its root on.
pub open spec fn snapshot_of(src: Source, root: BucketMeta) -> Result<Tree, Error> {
    let (r, after) = salvage::saved(
        src,
        root.root_page,
        salvage::unplaced(),
        Saved { tree: tree::empty_tree(), manifest: nothing_skipped() },
        Seq::empty(),
        src.buf.len(),
        src.buf.len(),
    );
    match r {
        Err(e) => Err(e),
        Ok(_) => if after.manifest.skipped_records.len() > 0 {
            Err(Error::InvalidDB(Fault::Text("a bucket could not be read")))
        } else {
            Ok(Tree { next_int: root.next_int, ..after.tree })
        },
    }
}

/// The manifest of nothing.
pub open spec fn nothing_skipped() -> ManifestView {
    ManifestView {
        copied_buckets: 0,
        copied_records: 0,
        skipped_pages: Seq::empty(),
        skipped_records: Seq::empty(),
    }
}

/// Reads all buckets of a file from the record of its root on; each must be
/// readable.
pub fn read_snapshot(pages: &Pages<'_>, root: BucketMeta) -> (r: Result<Node, Error>)
    ensures
        match (r, snapshot_of(pages@, root)) {
            (Ok(node), Ok(t)) => node.wf() && node@ == t,
            (Err(e), Err(f)) => e == f,
            _ => false,
        },
{
    let (mut node, manifest): (Node, SalvageManifest) = match salvage(
        pages,
        root.root_page,
        None,
    ) {
        Ok(found) => found,
        Err(e) => return Err(e),
    };
    if manifest.skipped_records.len() > 0 {
        return Err(Error::InvalidDB(Fault::Text("a bucket could not be read")));
    }
    node.set_next_int(root.next_int);
    Ok(node)
}

/// By which transaction a page was released, if it is listed.
pub open spec fn retired_in(free: Seq<RetiredPage>, p: int) -> Option<u64>
    decreases free.len(),
{
    if free.len() == 0 {
        None
    } else if free.last().page_id == p {
        Some(free.last().retired_tx_id)
    } else {
        retired_in(free.drop_last(), p)
    }
}

/// Whether a page may be used again: nobody reads what it held.
pub open spec fn reusable(free: Seq<RetiredPage>, horizon: u64, p: int) -> bool {
    retired_in(free, p) is Some && retired_in(free, p)->0 < horizon
}

/// Lists for each page by which transaction it was released.
fn by_page(free: &Vec<RetiredPage>, n: usize) -> (r: Vec<Option<u64>>)
    ensures
        r@.len() == n,
        forall|p: int| 0 <= p < n ==> (#[trigger] r@[p]) == retired_in(free@, p),
{
    let mut r: Vec<Option<u64>> = Vec::new();
    let mut k: usize = 0;
    while k < n
        invariant
            k <= n,
            r@.len() == k,
            forall|p: int| 0 <= p < k ==> (#[trigger] r@[p]) is None,
        decreases n - k,
    {
        r.push(None);
        k = k + 1;
    }
    let mut i: usize = 0;
    assert(free@.take(0) =~= Seq::<RetiredPage>::empty());
    while i < free.len()
        invariant
            i <= free@.len(),
            r@.len() == n,
            forall|p: int| 0 <= p < n ==> (#[trigger] r@[p]) == retired_in(free@.take(i as int), p),
        decreases free@.len() - i,
    {
        let entry: RetiredPage = free[i];
        proof {
            assert(free@.take(i + 1).drop_last() =~= free@.take(i as int));
            assert(free@.take(i + 1).last() == free@[i as int]);
        }
        if entry.page_id < n as u64 {
            r.set(entry.page_id as usize, Some(entry.retired_tx_id));
        }
        i = i + 1;
    }
    assert(free@.take(i as int) =~= free@);
    r
}

/// Counts the listed pages that may be used again, and those that may not yet.
pub fn count_free(free: &Vec<RetiredPage>, horizon: u64) -> (r: (u64, u64))
    ensures
        r.0 == free@.filter(|e: RetiredPage| e.retired_tx_id < horizon).len(),
        r.0 + r.1 == free@.len(),
{
    let ghost ready = |e: RetiredPage| e.retired_tx_id < horizon;
    let mut count: u64 = 0;
    let mut i: usize = 0;
    proof {
        reveal(Seq::filter);
        assert(free@.take(0) =~= Seq::<RetiredPage>::empty());
    }
    while i < free.len()
        invariant
            i <= free@.len(),
            count <= i,
            ready == (|e: RetiredPage| e.retired_tx_id < horizon),
            count == free@.take(i as int).filter(ready).len(),
        decreases free@.len() - i,
    {
        proof {
            reveal(Seq::filter);
            assert(free@.take(i + 1).drop_last() =~= free@.take(i as int));
            assert(free@.take(i + 1).last() == free@[i as int]);
        }
        if free[i].retired_tx_id < horizon {
            count = count + 1;
        }
        i = i + 1;
    }
    assert(free@.take(i as int) =~= free@);
    (count, free.len() as u64 - count)
}

/// Whether pages may be used again, all of them.
pub open spec fn all_reusable(free: Seq<RetiredPage>, horizon: u64, start: int, need: int) -> bool {
    forall|p: int| start <= p < start + need ==> #[trigger] reusable(free, horizon, p)
}

/// Finds the first pages in a row that may be used again.
fn find_run(
    listed: &Vec<Option<u64>>,
    Ghost(free): Ghost<Seq<RetiredPage>>,
    horizon: u64,
    need: usize,
) -> (r: Option<usize>)
    requires
        need > 0,
        forall|p: int| 0 <= p < listed@.len() ==> (#[trigger] listed@[p]) == retired_in(free, p),
    ensures
        match r {
            Some(start) => 2 <= start && start + need <= listed@.len() && all_reusable(
                free,
                horizon,
                start as int,
                need as int,
            ) && forall|other: int|
                2 <= other < start ==> !(#[trigger] all_reusable(
                    free,
                    horizon,
                    other,
                    need as int,
                )),
            None => forall|start: int|
                2 <= start && start + need <= listed@.len() ==> !(#[trigger] all_reusable(
                    free,
                    horizon,
                    start,
                    need as int,
                )),
        },
{
    let mut len: usize = 0;
    let mut p: usize = 2;
    while p < listed.len()
        invariant
            need > 0,
            len < need,
            2 <= p,
            p <= listed@.len() || p == 2,
            len <= p - 2,
            forall|q: int| 0 <= q < listed@.len() ==> (#[trigger] listed@[q]) == retired_in(free, q),
            forall|q: int| p - len <= q < p ==> #[trigger] reusable(free, horizon, q),
            len < p - 2 ==> !reusable(free, horizon, p - len - 1),
            forall|start: int|
                2 <= start && start + need <= p ==> !(#[trigger] all_reusable(
                    free,
                    horizon,
                    start,
                    need as int,
                )),
        decreases listed@.len() - p,
    {
        let ready: bool = match listed[p] {
            Some(id) => id < horizon,
            None => false,
        };
        assert(ready == reusable(free, horizon, p as int));
        let ghost was = len;
        if ready {
            len = len + 1;
        } else {
            len = 0;
        }
        if len == need {
            return Some(p + 1 - need);
        }
        proof {
            assert forall|start: int| 2 <= start && start + need <= p + 1 implies !(
            #[trigger] all_reusable(free, horizon, start, need as int)) by {
                if start + need == p + 1 && all_reusable(free, horizon, start, need as int) {
                    assert(reusable(free, horizon, p as int));
                    if was < p - 2 {
                        assert(start <= p - was - 1 < start + need);
                        assert(reusable(free, horizon, p - was - 1));
                    }
                }
            }
        }
        p = p + 1;
    }
    None
}

/// The freelist of a commit: the pages before `p` that it does not use. Those
/// that were listed keep their transaction, the others are released by this
/// one.
pub open spec fn released(
    free: Seq<RetiredPage>,
    start: int,
    need: int,
    tx_id: u64,
    p: int,
) -> Seq<RetiredPage>
    decreases p,
{
    if p <= 2 {
        Seq::empty()
    } else {
        let before = released(free, start, need, tx_id, p - 1);
        if start <= p - 1 < start + need {
            before
        } else {
            before.push(
                RetiredPage {
                    page_id: (p - 1) as u64,
                    retired_tx_id: match retired_in(free, p - 1) {
                        Some(id) => id,
                        None => tx_id,
                    },
                },
            )
        }
    }
}

proof fn lemma_released_len(free: Seq<RetiredPage>, start: int, need: int, tx_id: u64, p: int)
    ensures
        released(free, start, need, tx_id, p).len() <= if p <= 2 {
            0
        } else {
            p - 2
        },
    decreases p,
{
    if p > 2 {
        lemma_released_len(free, start, need, tx_id, p - 1);
    }
}

fn release(
    listed: &Vec<Option<u64>>,
    Ghost(free): Ghost<Seq<RetiredPage>>,
    start: usize,
    need: usize,
    tx_id: u64,
) -> (r: Vec<RetiredPage>)
    requires
        forall|p: int| 0 <= p < listed@.len() ==> (#[trigger] listed@[p]) == retired_in(free, p),
        start + need <= usize::MAX,
    ensures
        r@ == released(free, start as int, need as int, tx_id, listed@.len() as int),
{
    let mut r: Vec<RetiredPage> = Vec::new();
    let mut p: usize = 2;
    while p < listed.len()
        invariant
            2 <= p,
            p <= listed@.len() || p == 2,
            forall|q: int| 0 <= q < listed@.len() ==> (#[trigger] listed@[q]) == retired_in(free, q),
            start + need <= usize::MAX,
            r@ == released(free, start as int, need as int, tx_id, p as int),
        decreases listed@.len() - p,
    {
        if p < start || p >= start + need {
            let retired_tx_id: u64 = match listed[p] {
                Some(id) => id,
                None => tx_id,
            };
            r.push(RetiredPage { page_id: p as u64, retired_tx_id });
        }
        p = p + 1;
    }
    r
}

/// How many bytes the block of a freelist needs in a file of `n` pages.
pub open spec fn list_len(n: int) -> int {
    DATA_OFFSET + CHECKSUM_SIZE + if n > 2 {
        (n - 2) * RETIRED_SIZE
    } else {
        0
    }
}

/// How many pages a commit takes: for the buckets, and for the freelist.
pub open spec fn needed_pages(t: Tree, n: int, pagesize: int) -> int {
    pack::pages_of(t, pagesize) + pack::whole_pages(list_len(n), pagesize)
}

/// The first page behind those of a file.
pub open spec fn behind(n: int) -> int {
    if n > 2 {
        n
    } else {
        2
    }
}

/// Whether a commit may use the pages from `start` on: they may be used again,
/// or lie behind those of the file.
pub open spec fn region_open(
    free: Seq<RetiredPage>,
    horizon: u64,
    n: int,
    start: int,
    need: int,
) -> bool {
    ||| start == behind(n)
    ||| 2 <= start && start + need <= n && all_reusable(free, horizon, start, need)
}

/// Whether the pages from `start` on are the first that a commit may use.
pub open spec fn first_open(
    free: Seq<RetiredPage>,
    horizon: u64,
    n: int,
    start: int,
    need: int,
) -> bool {
    &&& region_open(free, horizon, n, start, need)
    &&& start <= behind(n)
    &&& forall|other: int|
        2 <= other < start && other + need <= n ==> !(#[trigger] all_reusable(
            free,
            horizon,
            other,
            need,
        ))
}

/// Finds the pages for a block of `need` pages in a file of `n`: the first in a
/// row that may be used again, or else those behind the file's.
pub fn allocate(free: &Vec<RetiredPage>, horizon: u64, n: usize, need: usize) -> (start: usize)
    requires
        need > 0,
    ensures
        first_open(free@, horizon, n as int, start as int, need as int),
{
    let listed: Vec<Option<u64>> = by_page(free, n);
    match find_run(&listed, Ghost(free@), horizon, need) {
        Some(start) => start,
        None => if n > 2 {
            n
        } else {
            2
        },
    }
}

/// The meta record of a commit that uses the pages from `start` on.
pub open spec fn tree_meta(meta: Meta, t: Tree, pagesize: int, start: int) -> Meta {
    let end = start + needed_pages(t, meta.num_pages as int, pagesize);
    Meta {
        root: pack::packed_root(t, pagesize, start),
        num_pages: if end > meta.num_pages {
            end as u64
        } else {
            meta.num_pages
        },
        freelist_page: (start + pack::pages_of(t, pagesize)) as u64,
        ..meta
    }
}

/// What the blocks of a commit are: they fill its pages, and once they stand in
/// a file, it holds the buckets and the freelist.
pub open spec fn blocks_carry(
    blocks: Seq<DirtyBlock>,
    meta: Meta,
    t: Tree,
    free: Seq<RetiredPage>,
    pagesize: u64,
    start: int,
) -> bool {
    let ps = pagesize as int;
    let need = needed_pages(t, meta.num_pages as int, ps);
    let next = tree_meta(meta, t, ps, start);
    &&& pack::runs(blocks, start, start + need, ps)
    &&& forall|src: Source|
        src.pagesize == pagesize && #[trigger] pack::laid(src, blocks) ==> {
            &&& pack::holds(src, next.root.root_page, t, start, start + pack::pages_of(t, ps))
            &&& freelist_in(src, next.freelist_page) == Ok::<Seq<RetiredPage>, Error>(
                released(free, start, need, meta.tx_id, meta.num_pages as int),
            )
            &&& next.freelist_page + list_span(src, next.freelist_page) == start + need
        }
}

/// Whether a commit of buckets is carried out by the plan, from page `start` on.
pub open spec fn tree_planned(
    meta: Meta,
    t: Tree,
    free: Seq<RetiredPage>,
    horizon: u64,
    pagesize: u64,
    current: u64,
    increment: u64,
    maximum: Option<u64>,
    start: int,
    blocks: Seq<DirtyBlock>,
    r: Result<CommitPlan, Error>,
) -> bool {
    let ps = pagesize as int;
    let need = needed_pages(t, meta.num_pages as int, ps);
    &&& first_open(free, horizon, meta.num_pages as int, start, need)
    &&& (start + need) * ps <= usize::MAX
    &&& blocks_carry(blocks, meta, t, free, pagesize, start)
    &&& writer::commit_planned(
        tree_meta(meta, t, ps, start),
        blocks,
        pagesize,
        current,
        increment,
        maximum,
        r,
    )
}

/// Whether there is room for a commit behind the pages of a file.
pub open spec fn room_behind(meta: Meta, t: Tree, pagesize: int) -> bool {
    (behind(meta.num_pages as int) + needed_pages(t, meta.num_pages as int, pagesize)) * pagesize
        <= usize::MAX
}

/// Where a commit goes: the first of its pages, how many there are, and how many
/// of them are for the freelist.
struct Place {
    start: usize,
    need: usize,
    list_pages: usize,
}

/// Whether a commit can go to a place.
spec fn suits(
    at: Place,
    meta: Meta,
    t: Tree,
    free: Seq<RetiredPage>,
    horizon: u64,
    pagesize: int,
) -> bool {
    let n = meta.num_pages as int;
    &&& n <= usize::MAX
    &&& at.need == needed_pages(t, n, pagesize)
    &&& at.list_pages == pack::whole_pages(list_len(n), pagesize)
    &&& first_open(free, horizon, n, at.start as int, at.need as int)
    &&& (at.start + at.need) * pagesize <= usize::MAX
}

proof fn lemma_too_wide(wide: int, part: int, pagesize: int)
    requires
        wide >= part >= 0,
        pagesize >= 1,
        part > usize::MAX || part * pagesize > usize::MAX,
    ensures
        wide * pagesize > usize::MAX,
{
    assert(wide * pagesize >= part * pagesize) by (nonlinear_arith)
        requires
            wide >= part,
            pagesize >= 0,
    ;
    assert(part * pagesize >= part) by (nonlinear_arith)
        requires
            part >= 0,
            pagesize >= 1,
    ;
}

/// Finds the place for a commit, if there is one.
fn find_place(
    meta: Meta,
    root: &Node,
    free: &Vec<RetiredPage>,
    horizon: u64,
    pagesize: usize,
) -> (r: Option<Place>)
    requires
        root.wf(),
        pagesize >= 1024,
    ensures
        match r {
            Some(at) => suits(at, meta, root@, free@, horizon, pagesize as int),
            None => !room_behind(meta, root@, pagesize as int),
        },
{
    let ghost t = root@;
    let ghost ps = pagesize as int;
    let ghost count = meta.num_pages as int;
    let ghost wide = behind(count) + needed_pages(t, count, ps);
    proof {
        pack::lemma_pages_of(t, ps);
        pack::lemma_whole_pages(list_len(count), ps);
    }
    if meta.num_pages > usize::MAX as u64 {
        proof {
            lemma_too_wide(wide, wide, ps);
        }
        return None;
    }
    let n: usize = meta.num_pages as usize;
    let tree_pages: usize = match count_pages(root, pagesize) {
        Some(tree_pages) => tree_pages,
        None => {
            proof {
                lemma_too_wide(wide, pack::pages_of(t, ps), ps);
            }
            return None;
        },
    };
    let most: usize = if n > 2 {
        n - 2
    } else {
        0
    };
    let size: Option<usize> = match most.checked_mul(RETIRED_SIZE) {
        Some(size) => size.checked_add(DATA_OFFSET + CHECKSUM_SIZE),
        None => None,
    };
    let size: usize = match size {
        Some(size) => size,
        None => {
            proof {
                lemma_list_wide(t, count, ps);
            }
            return None;
        },
    };
    let list_pages: usize = pages_for(size, pagesize);
    let need: usize = match tree_pages.checked_add(list_pages) {
        Some(need) => need,
        None => {
            proof {
                lemma_too_wide(wide, wide, ps);
            }
            return None;
        },
    };
    let start: usize = allocate(free, horizon, n, need);
    assert(start + need <= wide);
    let end: usize = match start.checked_add(need) {
        Some(end) => end,
        None => {
            proof {
                lemma_too_wide(wide, wide, ps);
            }
            return None;
        },
    };
    match end.checked_mul(pagesize) {
        Some(_) => Some(Place { start, need, list_pages }),
        None => {
            proof {
                lemma_too_wide(wide, end as int, ps);
            }
            None
        },
    }
}

/// Lays out a commit at its place: the meta record before it is published, and
/// the blocks.
fn lay_out(
    meta: Meta,
    root: &Node,
    free: &Vec<RetiredPage>,
    Ghost(horizon): Ghost<u64>,
    pagesize: usize,
    at: Place,
) -> (r: (Meta, Vec<DirtyBlock>))
    requires
        root.wf(),
        pagesize >= 1024,
        suits(at, meta, root@, free@, horizon, pagesize as int),
    ensures
        r.0 == tree_meta(meta, root@, pagesize as int, at.start as int),
        blocks_carry(r.1@, meta, root@, free@, pagesize as u64, at.start as int),
{
    let ghost t = root@;
    let ghost ps = pagesize as int;
    let ghost count = meta.num_pages as int;
    let start: usize = at.start;
    let need: usize = at.need;
    let list_pages: usize = at.list_pages;
    proof {
        pack::lemma_pages_of(t, ps);
        pack::lemma_whole_pages(list_len(count), ps);
        let a = start + pack::pages_of(t, ps);
        let end = start + need;
        assert(a * ps <= end * ps) by (nonlinear_arith)
            requires
                a <= end,
                ps >= 0,
        ;
        assert(list_pages * ps <= end * ps) by (nonlinear_arith)
            requires
                list_pages <= end,
                ps >= 0,
        ;
        assert(end <= end * ps) by (nonlinear_arith)
            requires
                end >= 0,
                ps >= 1,
        ;
        lemma_released_len(free@, start as int, need as int, meta.tx_id, count);
    }
    let mut blocks: Vec<DirtyBlock> = Vec::new();
    let (packed, list_at): (BucketMeta, u64) = pack_bucket(
        root,
        pagesize,
        start as u64,
        &mut blocks,
    );
    let ghost buckets = blocks@;
    assert(buckets.skip(0) =~= buckets);
    let listed: Vec<Option<u64>> = by_page(free, meta.num_pages as usize);
    let entries: Vec<RetiredPage> = release(&listed, Ghost(free@), start, need, meta.tx_id);
    let list_bytes: usize = list_pages * pagesize;
    let list: Vec<u8> = write_freelist(list_at, &entries, (list_pages - 1) as u64, list_bytes);
    let dirty: DirtyBlock = DirtyBlock { page_id: list_at, bytes: list };
    let ghost last = dirty;
    blocks.push(dirty);
    let end: u64 = (start + need) as u64;
    let mut next: Meta = meta;
    next.root = packed;
    next.freelist_page = list_at;
    if end > meta.num_pages {
        next.num_pages = end;
    }
    proof {
        let all = blocks@;
        assert(next == tree_meta(meta, t, ps, start as int));
        assert(all.drop_last() =~= buckets);
        assert(all.last() == last);
        assert(pack::runs(all, start as int, start + need, ps));
        assert forall|src: Source|
            src.pagesize == pagesize as u64 && #[trigger] pack::laid(src, all) implies {
            &&& pack::holds(
                src,
                next.root.root_page,
                t,
                start as int,
                start + pack::pages_of(t, ps),
            )
            &&& freelist_in(src, next.freelist_page) == Ok::<Seq<RetiredPage>, Error>(
                released(free@, start as int, need as int, meta.tx_id, count),
            )
            &&& next.freelist_page + list_span(src, next.freelist_page) == start + need
        } by {
            pack::lemma_laid_part(src, all, buckets, 0);
            pack::lemma_laid_part(src, all, seq![last], buckets.len() as int);
            lemma_list_reads(src, list_at, entries@, list_pages as int, last);
        }
    }
    (next, blocks)
}

/// Works out what the commit of a bucket with all that is in it does to its
/// file. `meta` is the writer's meta record, `free` the freelist that it found,
/// and `horizon` the transaction before which released pages may be used again.
///
/// The bucket and the new freelist go to pages that may be used again, if there
/// are enough in a row, or else behind those of the file.
pub fn plan_tree(
    meta: Meta,
    root: &Node,
    free: &Vec<RetiredPage>,
    horizon: u64,
    pagesize: usize,
    current: u64,
    increment: u64,
    maximum: Option<u64>,
) -> (r: Result<CommitPlan, Error>)
    requires
        root.wf(),
        pagesize >= 1024,
        increment > 0,
    ensures
        ({
            ||| (r == Err::<CommitPlan, Error>(Error::TooLarge) && !room_behind(
                meta,
                root@,
                pagesize as int,
            ))
            ||| exists|start: int, blocks: Seq<DirtyBlock>| #[trigger]
                tree_planned(
                    meta,
                    root@,
                    free@,
                    horizon,
                    pagesize as u64,
                    current,
                    increment,
                    maximum,
                    start,
                    blocks,
                    r,
                )
        }),
{
    let ghost ps = pagesize as int;
    let at: Place = match find_place(meta, root, free, horizon, pagesize) {
        Some(at) => at,
        None => return Err(Error::TooLarge),
    };
    let ghost start = at.start as int;
    let ghost need = at.need as int;
    let (next, blocks): (Meta, Vec<DirtyBlock>) = lay_out(
        meta,
        root,
        free,
        Ghost(horizon),
        pagesize,
        at,
    );
    let ghost all = blocks@;
    proof {
        let end = start + need;
        pack::lemma_runs_fit(all, start, end, ps, end);
        assert(need * ps + ps <= end * ps) by (nonlinear_arith)
            requires
                end == start + need,
                start >= 1,
                ps >= 0,
        ;
    }
    let r: Result<CommitPlan, Error> = plan_commit(
        next,
        blocks,
        pagesize,
        current,
        increment,
        maximum,
    );
    proof {
        assert(tree_planned(
            meta,
            root@,
            free@,
            horizon,
            pagesize as u64,
            current,
            increment,
            maximum,
            start,
            all,
            r,
        ));
    }
    r
}

/// A file whose freelist takes more than can be addressed has no room.
proof fn lemma_list_wide(t: Tree, n: int, pagesize: int)
    requires
        pagesize >= 1024,
        n >= 0,
        list_len(n) > usize::MAX,
    ensures
        (behind(n) + needed_pages(t, n, pagesize)) * pagesize > usize::MAX,
{
    pack::lemma_pages_of(t, pagesize);
    pack::lemma_whole_pages(list_len(n), pagesize);
    let wide = behind(n) + needed_pages(t, n, pagesize);
    let part = pack::whole_pages(list_len(n), pagesize);
    assert(wide * pagesize >= part * pagesize) by (nonlinear_arith)
        requires
            wide >= part,
            pagesize >= 0,
    ;
}

/// A freelist that stands in a file is read back.
proof fn lemma_list_reads(
    src: Source,
    id: u64,
    entries: Seq<RetiredPage>,
    pages: int,
    block: DirtyBlock,
)
    requires
        src.pagesize >= 1024,
        pack::laid(src, seq![block]),
        0 < pages <= u64::MAX,
        block.page_id == id,
        block.bytes@.len() == pages * src.pagesize,
        DATA_OFFSET + entries.len() * RETIRED_SIZE + CHECKSUM_SIZE <= block.bytes@.len(),
        entries.len() <= u64::MAX,
        block.bytes@ == writer::freelist_block(
            id,
            entries,
            (pages - 1) as u64,
            block.bytes@.len() as int,
        ),
    ensures
        freelist_in(src, id) == Ok::<Seq<RetiredPage>, Error>(entries),
        list_span(src, id) == pages,
{
    let one = seq![block];
    assert(one[0] == block);
    let at = id * src.pagesize;
    let len = block.bytes@.len();
    let b = src.buf.subrange(at, at + len);
    assert(at >= 0) by (nonlinear_arith)
        requires
            at == id * src.pagesize,
            id >= 0,
            src.pagesize >= 0,
    ;
    assert(len >= 1024) by (nonlinear_arith)
        requires
            len == pages * src.pagesize,
            pages >= 1,
            src.pagesize >= 1024,
    ;
    writer::law_written_freelist_reads_back(
        src.buf,
        id,
        entries,
        (pages - 1) as u64,
        src.pagesize,
        src.version,
        b,
    );
    assert(freelist_in(src, id)->Ok_0 =~= entries);
}

} // verus!
