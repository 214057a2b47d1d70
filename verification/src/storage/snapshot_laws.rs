//! What holds of snapshots: a file has one that is whole, whenever a commit is
//! interrupted, and those that readers have open stay.

use crate::api::tree::{self, Item, Tree};
use crate::assoc;
use crate::bytemap;
use crate::error::Error;
use crate::storage::commit;
use crate::storage::commit_laws;
use crate::storage::cursor::{self, Source};
use crate::storage::meta::{self, Meta};
use crate::storage::pack;
use crate::storage::pack_laws;
use crate::storage::page::{self, RetiredPage, FORMAT_VERSION};
use crate::storage::writer::{self, CommitPlan, DirtyBlock};
use vstd::prelude::*;

verus! {

/// A commit of buckets that was planned: what it started from, where it goes,
/// and what it does to its file.
pub struct Planned {
    pub meta: Meta,
    pub tree: Tree,
    pub free: Seq<RetiredPage>,
    pub horizon: u64,
    pub current: u64,
    pub increment: u64,
    pub maximum: Option<u64>,
    pub start: int,
    pub blocks: Seq<DirtyBlock>,
    pub plan: CommitPlan,
}

impl Planned {
    /// Whether the plan carries the commit out.
    pub open spec fn wf(self, pagesize: u64) -> bool {
        commit::tree_planned(
            self.meta,
            self.tree,
            self.free,
            self.horizon,
            pagesize,
            self.current,
            self.increment,
            self.maximum,
            self.start,
            self.blocks,
            Ok::<CommitPlan, Error>(self.plan),
        )
    }

    /// How many pages the commit takes.
    pub open spec fn need(self, pagesize: u64) -> int {
        commit::needed_pages(self.tree, self.meta.num_pages as int, pagesize as int)
    }

    /// The freelist that the commit leaves.
    pub open spec fn left(self, pagesize: u64) -> Seq<RetiredPage> {
        commit::released(
            self.free,
            self.start,
            self.need(pagesize),
            self.meta.tx_id,
            self.meta.num_pages as int,
        )
    }

    /// Whether a byte of the file lies in none of the writes that come before
    /// that of the meta page.
    pub open spec fn spares(self, k: int) -> bool {
        forall|i: int|
            0 <= i < self.plan.data@.len() ==> !((#[trigger] self.plan.data@[i]).offset <= k
                < self.plan.data@[i].offset + self.plan.data@[i].bytes@.len())
    }

    /// Whether the commit is in its file whole: the file has its length, and
    /// all that was to be written stands in it.
    pub open spec fn complete(self, buf: Seq<u8>, pagesize: u64) -> bool {
        &&& self.plan.meta.num_pages * pagesize <= buf.len()
        &&& commit_laws::stands(buf, self.plan.meta_write)
        &&& forall|i: int|
            0 <= i < self.plan.data@.len() ==> commit_laws::stands(
                buf,
                #[trigger] self.plan.data@[i],
            )
    }
}

/// Whether the second file is what the first can have become by a commit that
/// was begun: behind the meta pages, only what the commit writes differs, and
/// the file may have grown.
pub open spec fn touched(a: Source, b: Source, c: Planned) -> bool {
    &&& a.pagesize == b.pagesize
    &&& a.version == b.version
    &&& a.buf.len() <= b.buf.len() <= usize::MAX
    &&& forall|k: int|
        2 * a.pagesize <= k < a.buf.len() && c.spares(k) ==> #[trigger] a.buf[k] == b.buf[k]
}

/// Whether a file has the snapshot of a meta record, with these buckets, and all
/// of it lies between two pages: the buckets, and the freelist.
pub open spec fn stands_between(src: Source, m: Meta, t: Tree, from: int, to: int) -> bool {
    &&& pack::holds(src, m.root.root_page, t, from, to)
    &&& m.root.next_int == t.next_int
    &&& pack::pages_of(t, src.pagesize as int) <= to - from
    &&& commit::freelist_in(src, m.freelist_page) is Ok
    &&& from <= m.freelist_page && m.freelist_page + commit::list_span(src, m.freelist_page) <= to
    &&& to * src.pagesize <= src.buf.len() <= usize::MAX
}

/// Pages that may not be used again are left alone by a commit, as far as it
/// comes.
pub proof fn law_unreleased_pages_stay(a: Source, b: Source, c: Planned, from: int, to: int)
    requires
        a.pagesize >= 1024,
        c.wf(a.pagesize),
        touched(a, b, c),
        2 <= from,
        to <= c.meta.num_pages,
        to * a.pagesize <= a.buf.len(),
        forall|p: int| from <= p < to ==> !(#[trigger] commit::reusable(c.free, c.horizon, p)),
    ensures
        commit_laws::agree(a, b, from, to),
{
    let ps = a.pagesize as int;
    assert(2 * ps <= from * ps) by (nonlinear_arith)
        requires
            2 <= from,
            ps >= 0,
    ;
    assert forall|k: int| from * ps <= k < to * ps implies #[trigger] a.buf[k] == b.buf[k] by {
        let p = k / ps;
        vstd::arithmetic::div_mod::lemma_fundamental_div_mod(k, ps);
        vstd::arithmetic::div_mod::lemma_mod_bound(k, ps);
        assert(p * ps <= k < (p + 1) * ps) by (nonlinear_arith)
            requires
                k == ps * p + k % ps,
                0 <= k % ps < ps,
        ;
        assert(from <= p < to) by (nonlinear_arith)
            requires
                p * ps <= k < (p + 1) * ps,
                from * ps <= k < to * ps,
                ps > 0,
        ;
        assert(!commit::reusable(c.free, c.horizon, p));
        assert forall|i: int| 0 <= i < c.plan.data@.len() implies !((
        #[trigger] c.plan.data@[i]).offset <= k < c.plan.data@[i].offset
            + c.plan.data@[i].bytes@.len()) by {
            commit_laws::law_commit_spares_what_is_read(
                c.meta,
                c.tree,
                c.free,
                c.horizon,
                a.pagesize,
                c.current,
                c.increment,
                c.maximum,
                c.start,
                c.blocks,
                c.plan,
                i,
                p,
            );
        }
        assert(c.spares(k));
    }
}

/// A snapshot that lies where two files agree is in both.
pub proof fn law_snapshot_stays(a: Source, b: Source, m: Meta, t: Tree, from: int, to: int)
    requires
        commit_laws::agree(a, b, from, to),
        a.pagesize >= 1024,
        0 <= from,
        stands_between(a, m, t, from, to),
    ensures
        stands_between(b, m, t, from, to),
        commit::freelist_in(b, m.freelist_page) == commit::freelist_in(a, m.freelist_page),
{
    commit_laws::law_held_buckets_stay(a, b, m.root.root_page, t, from, to);
    commit_laws::lemma_same_block(a, b, from, to, m.freelist_page);
}

/// A snapshot that a file has is read whole.
pub proof fn law_snapshot_is_read(src: Source, m: Meta, t: Tree, from: int, to: int)
    requires
        src.pagesize >= 1024,
        0 <= from,
        stands_between(src, m, t, from, to),
        pack_laws::listable(t),
        pack_laws::only_buckets(t),
    ensures
        commit::snapshot_of(src, m.root) == Ok::<Tree, Error>(t),
{
    let ps = src.pagesize as int;
    assert(to <= to * ps) by (nonlinear_arith)
        requires
            to >= 0,
            ps >= 1,
    ;
    pack_laws::law_held_buckets_are_read_whole(
        src,
        m.root.root_page,
        t,
        from,
        to,
        commit::nothing_skipped(),
    );
    assert(commit::snapshot_of(src, m.root)->Ok_0 == t);
}

/// Whether what stands in a meta page leaves the record in the other one alone:
/// nothing valid does, nor what stood there before, nor an older record.
pub open spec fn no_newer(now: Option<Meta>, before: Option<Meta>, last: Meta) -> bool {
    match now {
        None => true,
        Some(other) => now == before || other.tx_id < last.tx_id,
    }
}

/// The page of the meta record that does not count.
pub open spec fn other_page(last: Meta) -> u64 {
    if last.meta_page == 0 {
        1
    } else {
        0
    }
}

/// The meta record that counts goes on counting while the next one is being
/// written to the other page, until that one is valid.
pub proof fn law_half_written_meta_does_not_count(
    a: Seq<u8>,
    b: Seq<u8>,
    pagesize: u64,
    last: Meta,
)
    requires
        last.meta_page <= 1,
        meta::current_meta(a, pagesize) == Ok::<Meta, Error>(last),
        meta::valid_meta(a, last.meta_page as u64, pagesize) == Some(last),
        meta::valid_meta(b, last.meta_page as u64, pagesize) == Some(last),
        no_newer(
            meta::valid_meta(b, other_page(last), pagesize),
            meta::valid_meta(a, other_page(last), pagesize),
            last,
        ),
    ensures
        meta::current_meta(b, pagesize) == Ok::<Meta, Error>(last),
{
}

/// Whether a page is the same in two files.
pub open spec fn same_page(a: Seq<u8>, b: Seq<u8>, pagesize: u64, id: u64) -> bool {
    a.subrange(id * pagesize, id * pagesize + pagesize) == b.subrange(
        id * pagesize,
        id * pagesize + pagesize,
    )
}

/// A meta page, which is one page, is read the same as long as its bytes stay.
#[verifier::rlimit(30)]
#[verifier::spinoff_prover]
pub proof fn law_untouched_meta_page_is_read(a: Seq<u8>, b: Seq<u8>, pagesize: u64, id: u64)
    requires
        pagesize >= 1024,
        id <= 1,
        2 * pagesize <= a.len() <= usize::MAX,
        2 * pagesize <= b.len() <= usize::MAX,
        same_page(a, b, pagesize, id),
        meta::one_page(a, id, pagesize),
    ensures
        meta::one_page(b, id, pagesize),
        meta::valid_meta(a, id, pagesize) == meta::valid_meta(b, id, pagesize),
{
    let ps = pagesize as int;
    let offset = id * pagesize;
    assert(0 <= offset <= ps) by (nonlinear_arith)
        requires
            offset == id * ps,
            0 <= id <= 1,
            ps >= 0,
    ;
    let one = a.subrange(offset, offset + ps);
    assert(a.skip(offset).take(ps) =~= one);
    assert(b.skip(offset).take(ps) =~= one);
    page::lemma_header_local(a.skip(offset), one);
    page::lemma_header_local(b.skip(offset), one);
    assert forall|version: u32| #[trigger] page::block_of(a, id, pagesize, version)
        == page::block_of(b, id, pagesize, version) by {
    }
}

/// A commit that was interrupted before it was published leaves the last
/// snapshot: its meta record counts, and its buckets and its freelist are read,
/// if its pages may not be used again. The meta page that the commit was to
/// write may be broken.
pub proof fn law_interrupted_commit_keeps_the_last(
    a: Source,
    b: Source,
    last: Meta,
    was: Tree,
    from: int,
    to: int,
    c: Planned,
)
    requires
        a.pagesize >= 1024,
        last.meta_page <= 1,
        meta::current_meta(a.buf, a.pagesize) == Ok::<Meta, Error>(last),
        meta::valid_meta(a.buf, last.meta_page as u64, a.pagesize) == Some(last),
        stands_between(a, last, was, from, to),
        pack_laws::listable(was),
        pack_laws::only_buckets(was),
        2 <= from,
        to <= c.meta.num_pages,
        forall|p: int| from <= p < to ==> !(#[trigger] commit::reusable(c.free, c.horizon, p)),
        c.wf(a.pagesize),
        touched(a, b, c),
        meta::valid_meta(b.buf, last.meta_page as u64, b.pagesize) == Some(last),
        no_newer(
            meta::valid_meta(b.buf, other_page(last), b.pagesize),
            meta::valid_meta(a.buf, other_page(last), a.pagesize),
            last,
        ),
    ensures
        meta::current_meta(b.buf, b.pagesize) == Ok::<Meta, Error>(last),
        stands_between(b, last, was, from, to),
        commit::snapshot_of(b, last.root) == Ok::<Tree, Error>(was),
        commit::freelist_in(b, last.freelist_page) == commit::freelist_in(a, last.freelist_page),
{
    law_unreleased_pages_stay(a, b, c, from, to);
    law_snapshot_stays(a, b, last, was, from, to);
    law_snapshot_is_read(b, last, was, from, to);
    law_half_written_meta_does_not_count(a.buf, b.buf, a.pagesize, last);
}

/// A commit does not list its own pages as free.
proof fn lemma_own_pages_unlisted(
    free: Seq<RetiredPage>,
    start: int,
    need: int,
    tx_id: u64,
    n: int,
    p: int,
)
    requires
        start <= p < start + need,
        n <= u64::MAX,
    ensures
        commit::retired_in(commit::released(free, start, need, tx_id, n), p) is None,
    decreases n,
{
    if n > 2 {
        lemma_own_pages_unlisted(free, start, need, tx_id, n - 1, p);
        let before = commit::released(free, start, need, tx_id, n - 1);
        let all = commit::released(free, start, need, tx_id, n);
        if !(start <= n - 1 < start + need) {
            assert(all.drop_last() =~= before);
        }
    }
}

/// Whether a file is as a commit, or its making, left it: the snapshot of the
/// meta record that counts is whole and lies between two pages, and none of
/// these is listed as released.
pub open spec fn settled(
    src: Source,
    last: Meta,
    was: Tree,
    free: Seq<RetiredPage>,
    from: int,
    to: int,
) -> bool {
    &&& src.pagesize >= 1024
    &&& src.version == last.version
    &&& last.meta_page <= 1
    &&& meta::current_meta(src.buf, src.pagesize) == Ok::<Meta, Error>(last)
    &&& meta::valid_meta(src.buf, last.meta_page as u64, src.pagesize) == Some(last)
    &&& meta::one_page(src.buf, last.meta_page as u64, src.pagesize)
    &&& stands_between(src, last, was, from, to)
    &&& pack_laws::listable(was)
    &&& pack_laws::only_buckets(was)
    &&& commit::freelist_in(src, last.freelist_page) == Ok::<Seq<RetiredPage>, Error>(free)
    &&& 2 <= from
    &&& to <= last.num_pages
    &&& forall|p: int| from <= p < to ==> (#[trigger] commit::retired_in(free, p)) is None
}

/// A new file is settled: it has an empty snapshot, and no page was released.
pub proof fn law_new_file_is_settled(src: Source)
    requires
        src.pagesize >= 1024,
        1 <= src.version <= FORMAT_VERSION,
        meta::begins_new(src.buf, src.pagesize, src.version),
    ensures
        settled(
            src,
            meta::first_meta(1, src.pagesize, src.version),
            tree::empty_tree(),
            Seq::empty(),
            2,
            4,
        ),
{
    let size = src.pagesize;
    let ps = size as int;
    let last = meta::first_meta(1, size, src.version);
    let t = tree::empty_tree();
    meta::law_new_file_has_meta(src.buf, size, src.version);
    assert(src.buf.subrange(2 * size, 2 * size + size) == meta::first_page(2, size, src.version));
    assert(src.buf.subrange(3 * size, 3 * size + size) == meta::first_page(3, size, src.version));
    meta::lemma_empty_page_reads(src.buf, 2, page::TYPE_FREELIST, size, src.version);
    meta::lemma_empty_page_reads(src.buf, 3, page::TYPE_LEAF, size, src.version);
    let none = Seq::<(Seq<u8>, Item)>::empty();
    assert(assoc::assoc(none) =~= t.items);
    bytemap::lemma_listed(none);
    assert(commit::freelist_in(src, 2)->Ok_0 =~= Seq::<RetiredPage>::empty());
    assert(cursor::node_of(src, 3) is Ok && pack::holds(src, 3, t, 2, 4)) by {
        reveal(cursor::node_of);
    }
    assert(pack::pages_of(t, ps) == 1) by {
        assert(pack::block_len(t) == page::DATA_OFFSET + page::CHECKSUM_SIZE);
        pack::lemma_whole_pages(pack::block_len(t), ps);
        let q = pack::whole_pages(pack::block_len(t), ps);
        assert(q == 1) by (nonlinear_arith)
            requires
                q > 0,
                q * ps < ps + ps,
                ps > 0,
        ;
    }
}

/// Wherever a commit that starts from a settled file is interrupted, the file is
/// settled again when it is opened the next time: with the snapshot before it,
/// or, once the commit is in the file whole, with its own. The page of the meta
/// record that counts is not written. Until the commit is whole, the meta page
/// that it was to write is broken, or as it was, or holds an older record.
pub proof fn law_commit_is_all_or_nothing(
    a: Source,
    b: Source,
    last: Meta,
    was: Tree,
    free: Seq<RetiredPage>,
    from: int,
    to: int,
    c: Planned,
)
    requires
        settled(a, last, was, free, from, to),
        last.tx_id < u64::MAX,
        c.meta == writer::next_meta(last),
        c.free == free,
        c.wf(a.pagesize),
        pack_laws::listable(c.tree),
        pack_laws::only_buckets(c.tree),
        touched(a, b, c),
        same_page(a.buf, b.buf, a.pagesize, last.meta_page as u64),
        c.complete(b.buf, b.pagesize) || no_newer(
            meta::valid_meta(b.buf, other_page(last), b.pagesize),
            meta::valid_meta(a.buf, other_page(last), a.pagesize),
            last,
        ),
    ensures
        if c.complete(b.buf, b.pagesize) {
            settled(
                b,
                c.plan.meta,
                c.tree,
                c.left(b.pagesize),
                c.start,
                c.start + c.need(b.pagesize),
            ) && commit::snapshot_of(b, c.plan.meta.root) == Ok::<Tree, Error>(c.tree)
        } else {
            settled(b, last, was, free, from, to) && commit::snapshot_of(b, last.root) == Ok::<
                Tree,
                Error,
            >(was)
        },
{
    let ps = a.pagesize as int;
    assert(2 * ps <= to * ps) by (nonlinear_arith)
        requires
            2 <= to,
            ps >= 0,
    ;
    law_untouched_meta_page_is_read(a.buf, b.buf, a.pagesize, last.meta_page as u64);
    if c.complete(b.buf, b.pagesize) {
        lemma_complete_settles(b, last, c);
    } else {
        assert forall|p: int| from <= p < to implies !(#[trigger] commit::reusable(
            c.free,
            c.horizon,
            p,
        )) by {
            assert(commit::retired_in(free, p) is None);
        }
        law_interrupted_commit_keeps_the_last(a, b, last, was, from, to, c);
    }
}

#[verifier::rlimit(40)]
#[verifier::spinoff_prover]
proof fn lemma_complete_settles(b: Source, last: Meta, c: Planned)
    requires
        b.pagesize >= 1024,
        b.version == last.version,
        last.meta_page <= 1,
        last.tx_id < u64::MAX,
        meta::valid_meta(b.buf, last.meta_page as u64, b.pagesize) == Some(last),
        c.meta == writer::next_meta(last),
        c.wf(b.pagesize),
        pack_laws::listable(c.tree),
        pack_laws::only_buckets(c.tree),
        c.complete(b.buf, b.pagesize),
        b.buf.len() <= usize::MAX,
    ensures
        settled(
            b,
            c.plan.meta,
            c.tree,
            c.left(b.pagesize),
            c.start,
            c.start + c.need(b.pagesize),
        ),
        commit::snapshot_of(b, c.plan.meta.root) == Ok::<Tree, Error>(c.tree),
{
    let ps = b.pagesize as int;
    let end = c.start + c.need(b.pagesize);
    let n = c.plan.meta.num_pages as int;
    let next = commit::tree_meta(c.meta, c.tree, ps, c.start);
    assert(c.plan.meta == meta::published(next));
    pack::lemma_pages_of(c.tree, ps);
    pack::lemma_whole_pages(commit::list_len(c.meta.num_pages as int), ps);
    assert(end <= end * ps) by (nonlinear_arith)
        requires
            end >= 0,
            ps >= 1,
    ;
    assert(end * ps <= n * ps) by (nonlinear_arith)
        requires
            end <= n,
            ps >= 0,
    ;
    commit_laws::law_committed_buckets_read_back(
        b,
        c.meta,
        c.tree,
        c.free,
        c.horizon,
        c.current,
        c.increment,
        c.maximum,
        c.start,
        c.blocks,
        c.plan,
    );
    pack::lemma_holds_wider(
        b,
        c.plan.meta.root.root_page,
        c.tree,
        c.start,
        c.start + pack::pages_of(c.tree, ps),
        c.start,
        end,
    );
    assert forall|p: int| c.start <= p < end implies (#[trigger] commit::retired_in(
        c.left(b.pagesize),
        p,
    )) is None by {
        lemma_own_pages_unlisted(
            c.free,
            c.start,
            c.need(b.pagesize),
            c.meta.tx_id,
            c.meta.num_pages as int,
            p,
        );
    }
}

/// A page of a snapshot that a reader of transaction `r` has open is released by
/// a later transaction, and is not used again while that reader is there: after
/// a commit it is listed under a transaction above `r`, and no writer whose
/// horizon the reader holds back may use it.
pub proof fn law_open_snapshot_keeps_its_pages(
    free: Seq<RetiredPage>,
    start: int,
    need: int,
    tx_id: u64,
    n: int,
    r: u64,
    p: int,
)
    requires
        2 <= p < n <= u64::MAX,
        r < tx_id,
        commit::retired_in(free, p) matches Some(id) ==> r < id,
        !(start <= p < start + need),
    ensures
        ({
            let left = commit::released(free, start, need, tx_id, n);
            &&& commit::retired_in(left, p) is Some
            &&& r < commit::retired_in(left, p)->0
            &&& forall|horizon: u64|
                horizon <= r ==> !(#[trigger] commit::reusable(left, horizon, p))
        }),
    decreases n,
{
    let before = commit::released(free, start, need, tx_id, n - 1);
    let all = commit::released(free, start, need, tx_id, n);
    if p < n - 1 {
        law_open_snapshot_keeps_its_pages(free, start, need, tx_id, n - 1, r, p);
    }
    if !(start <= n - 1 < start + need) {
        assert(all.drop_last() =~= before);
        assert(all.last().page_id == n - 1);
    }
}

/// A reader that is open holds back the horizon of every writer: it is at most
/// the reader's transaction.
pub proof fn law_readers_hold_back_the_horizon(
    current: Meta,
    readers: Seq<u64>,
    oldest: Option<u64>,
    r: u64,
)
    requires
        match oldest {
            Some(id) => readers.contains(id) && forall|other: u64| #[trigger]
                readers.contains(other) ==> id <= other,
            None => readers.len() == 0,
        },
        readers.contains(r),
    ensures
        writer::horizon_of(current, oldest) <= r,
{
}

/// Whether no page between two is listed as released by transaction `r` or one
/// before.
pub open spec fn released_after(free: Seq<RetiredPage>, r: u64, from: int, to: int) -> bool {
    forall|p: int|
        from <= p < to ==> ((#[trigger] commit::retired_in(free, p)) matches Some(id) ==> r < id)
}

/// The pages of a snapshot that a reader has open stay as they are through a
/// commit, as far as it comes, and are still protected after it.
proof fn lemma_open_pages_stay(a: Source, b: Source, c: Planned, r: u64, from: int, to: int)
    requires
        a.pagesize >= 1024,
        c.wf(a.pagesize),
        touched(a, b, c),
        c.horizon <= r < c.meta.tx_id,
        2 <= from,
        to <= c.meta.num_pages,
        to * a.pagesize <= a.buf.len(),
        released_after(c.free, r, from, to),
    ensures
        commit_laws::agree(a, b, from, to),
        released_after(c.left(a.pagesize), r, from, to),
        c.meta.num_pages <= c.plan.meta.num_pages,
{
    let ps = a.pagesize as int;
    let need = c.need(a.pagesize);
    assert forall|p: int| from <= p < to implies !(#[trigger] commit::reusable(
        c.free,
        c.horizon,
        p,
    )) by {
        assert(commit::retired_in(c.free, p) matches Some(id) ==> r < id);
    }
    law_unreleased_pages_stay(a, b, c, from, to);
    assert(c.plan.meta == meta::published(commit::tree_meta(c.meta, c.tree, ps, c.start)));
    let end = c.start + need;
    pack::lemma_pages_of(c.tree, ps);
    pack::lemma_whole_pages(commit::list_len(c.meta.num_pages as int), ps);
    assert(end <= end * ps) by (nonlinear_arith)
        requires
            end >= 0,
            ps >= 1,
    ;
    assert forall|p: int| from <= p < to implies ((#[trigger] commit::retired_in(
        c.left(a.pagesize),
        p,
    )) matches Some(id) ==> r < id) by {
        assert(commit::retired_in(c.free, p) matches Some(id) ==> r < id);
        if c.start <= p < end {
            lemma_own_pages_unlisted(
                c.free,
                c.start,
                need,
                c.meta.tx_id,
                c.meta.num_pages as int,
                p,
            );
        } else {
            law_open_snapshot_keeps_its_pages(
                c.free,
                c.start,
                need,
                c.meta.tx_id,
                c.meta.num_pages as int,
                r,
                p,
            );
        }
    }
}

/// Whether a file went through commits one after the other: each began from what
/// the one before left, or, where that one was not published, from what that one
/// began from.
pub open spec fn history(files: Seq<Source>, commits: Seq<Planned>, published: Seq<bool>) -> bool {
    &&& files.len() == commits.len() + 1
    &&& published.len() == commits.len()
    &&& forall|k: int|
        0 <= k < commits.len() ==> (#[trigger] commits[k]).wf(files[0].pagesize) && touched(
            files[k],
            files[k + 1],
            commits[k],
        )
    &&& forall|k: int|
        0 < k < commits.len() ==> if published[k - 1] {
            &&& (#[trigger] commits[k]).free == commits[k - 1].left(files[0].pagesize)
            &&& commits[k].meta.num_pages == commits[k - 1].plan.meta.num_pages
        } else {
            &&& commits[k].free == commits[k - 1].free
            &&& commits[k].meta.num_pages == commits[k - 1].meta.num_pages
        }
}

/// Whether a reader of transaction `r` was open all along: the writers came after
/// it, and it held back their horizons.
pub open spec fn open_throughout(commits: Seq<Planned>, r: u64) -> bool {
    forall|k: int|
        0 <= k < commits.len() ==> (#[trigger] commits[k]).horizon <= r < commits[k].meta.tx_id
}

/// A snapshot stays in its file, through all commits that come later, as long as
/// a reader has it open: it is read whole after each of them.
pub proof fn law_open_snapshot_outlives_commits(
    files: Seq<Source>,
    commits: Seq<Planned>,
    published: Seq<bool>,
    r: u64,
    m: Meta,
    t: Tree,
    from: int,
    to: int,
    k: int,
)
    requires
        history(files, commits, published),
        open_throughout(commits, r),
        files[0].pagesize >= 1024,
        stands_between(files[0], m, t, from, to),
        pack_laws::listable(t),
        pack_laws::only_buckets(t),
        2 <= from,
        commits.len() > 0 ==> to <= commits[0].meta.num_pages && released_after(
            commits[0].free,
            r,
            from,
            to,
        ),
        0 <= k <= commits.len(),
    ensures
        stands_between(files[k], m, t, from, to),
        commit::snapshot_of(files[k], m.root) == Ok::<Tree, Error>(t),
{
    lemma_snapshot_through(files, commits, published, r, m, t, from, to, k);
    law_snapshot_is_read(files[k], m, t, from, to);
}

proof fn lemma_snapshot_through(
    files: Seq<Source>,
    commits: Seq<Planned>,
    published: Seq<bool>,
    r: u64,
    m: Meta,
    t: Tree,
    from: int,
    to: int,
    k: int,
)
    requires
        history(files, commits, published),
        open_throughout(commits, r),
        files[0].pagesize >= 1024,
        stands_between(files[0], m, t, from, to),
        2 <= from,
        commits.len() > 0 ==> to <= commits[0].meta.num_pages && released_after(
            commits[0].free,
            r,
            from,
            to,
        ),
        0 <= k <= commits.len(),
    ensures
        files[k].pagesize == files[0].pagesize,
        stands_between(files[k], m, t, from, to),
        k < commits.len() ==> to <= commits[k].meta.num_pages && released_after(
            commits[k].free,
            r,
            from,
            to,
        ),
    decreases k,
{
    if k > 0 {
        lemma_snapshot_through(files, commits, published, r, m, t, from, to, k - 1);
        let c = commits[k - 1];
        assert(touched(files[k - 1], files[k - 1 + 1], c));
        lemma_open_pages_stay(files[k - 1], files[k], c, r, from, to);
        law_snapshot_stays(files[k - 1], files[k], m, t, from, to);
        if k < commits.len() {
            assert(commits[k].wf(files[0].pagesize));
        }
    }
}

/// What a reader sees does not change: a reader that opens the snapshot that
/// counts in a settled file reads the same buckets after every later commit,
/// whether it was published or interrupted, until the reader is closed.
pub proof fn law_reader_keeps_its_snapshot(
    files: Seq<Source>,
    commits: Seq<Planned>,
    published: Seq<bool>,
    last: Meta,
    was: Tree,
    free: Seq<RetiredPage>,
    from: int,
    to: int,
    k: int,
)
    requires
        history(files, commits, published),
        settled(files[0], last, was, free, from, to),
        commits.len() > 0 ==> commits[0].free == free && commits[0].meta.num_pages
            == last.num_pages,
        open_throughout(commits, last.tx_id),
        0 <= k <= commits.len(),
    ensures
        commit::snapshot_of(files[k], last.root) == Ok::<Tree, Error>(was),
{
    law_open_snapshot_outlives_commits(
        files,
        commits,
        published,
        last.tx_id,
        last,
        was,
        from,
        to,
        k,
    );
}

} // verus!
