//! Checking a whole file: every page is reached once, every block is valid,
//! and every page's keys are in order.

use crate::bytes::{self, less};
use crate::db::load;
use crate::error::{Error, Fault};
use crate::storage::meta::{BucketMeta, Meta};
use crate::storage::page::{
    self, LeafElement, Page, PageHeader, RetiredPage, NODE_BUCKET, TYPE_BRANCH, TYPE_FREELIST,
    TYPE_LEAF,
};
use std::collections::HashSet;
use vstd::prelude::*;

verus! {

broadcast use vstd::std_specs::hash::group_hash_axioms;

/// Whether a page can still be visited.
pub open spec fn free(visited: Set<u64>, num_pages: u64, p: int) -> bool {
    2 <= p < num_pages && !visited.contains(p as u64)
}

/// The pages that a block covers beyond its first, visited one by one.
pub open spec fn visit_overflow(visited: Set<u64>, num_pages: u64, p: u64, n: int) -> Result<
    Set<u64>,
    Error,
>
    decreases n,
{
    if n <= 0 {
        Ok(visited)
    } else {
        match visit_overflow(visited, num_pages, p, n - 1) {
            Err(e) => Err(e),
            Ok(seen) => if free(seen, num_pages, p + n) {
                Ok(seen.insert((p + n) as u64))
            } else {
                Err(
                    Error::InvalidDB(
                        Fault::One(
                            "Overflow Page ",
                            (p + n) as u64,
                            " from missing from unused_pages",
                        ),
                    ),
                )
            },
        }
    }
}

/// Whether the first `n` keys of a branch are in order.
pub open spec fn branch_sorted(b: Seq<u8>, n: int) -> bool {
    forall|i: int|
        0 < i < n ==> bytes::lex_lt(page::branch_key(b, i - 1), #[trigger] page::branch_key(b, i))
}

/// The children of a branch.
pub open spec fn branch_children(b: Seq<u8>, n: int) -> Seq<u64> {
    Seq::new(n as nat, |i: int| page::branch_at(b, i).page)
}

/// The buckets among the first `n` entries of a leaf, whose keys must be in
/// order.
pub open spec fn leaf_buckets(b: Seq<u8>, p: u64, n: int) -> Result<Seq<u64>, Error>
    decreases n,
{
    if n <= 0 {
        Ok(Seq::empty())
    } else {
        match leaf_buckets(b, p, n - 1) {
            Err(e) => Err(e),
            Ok(roots) => {
                let value = page::leaf_value(b, n - 1);
                let bucket = page::leaf_at(b, n - 1).node_type == NODE_BUCKET;
                if bucket && value.len() < 16 {
                    Err(
                        Error::InvalidDB(
                            Fault::Two(
                                "Page ",
                                p,
                                " index ",
                                (n - 1) as u64,
                                " has a short bucket record",
                            ),
                        ),
                    )
                } else if n >= 2 && !bytes::lex_lt(
                    page::leaf_key(b, n - 2),
                    page::leaf_key(b, n - 1),
                ) {
                    Err(
                        Error::InvalidDB(
                            Fault::One("Leaf page ", p, " contains unsorted elements"),
                        ),
                    )
                } else if bucket {
                    Ok(roots.push(BucketMeta::of(value).root_page))
                } else {
                    Ok(roots)
                }
            },
        }
    }
}

/// Whether the first `n` entries of a freelist were released by transactions
/// up to `tx_id`.
pub open spec fn retired_in_time(b: Seq<u8>, n: int, tx_id: u64) -> Result<(), Error>
    decreases n,
{
    if n <= 0 {
        Ok(())
    } else {
        match retired_in_time(b, n - 1, tx_id) {
            Err(e) => Err(e),
            Ok(_) => {
                let entry = page::retired_at(b, n - 1);
                if entry.retired_tx_id > tx_id {
                    Err(
                        Error::InvalidDB(
                            Fault::Two(
                                "Page ",
                                entry.page_id,
                                " has future retirement transaction ",
                                entry.retired_tx_id,
                                "",
                            ),
                        ),
                    )
                } else {
                    Ok(())
                }
            },
        }
    }
}

/// The pages of a freelist's first `n` entries, visited one by one.
pub open spec fn visit_retired(visited: Set<u64>, num_pages: u64, b: Seq<u8>, n: int) -> Result<
    Set<u64>,
    Error,
>
    decreases n,
{
    if n <= 0 {
        Ok(visited)
    } else {
        match visit_retired(visited, num_pages, b, n - 1) {
            Err(e) => Err(e),
            Ok(seen) => {
                let p = page::retired_at(b, n - 1).page_id;
                if free(seen, num_pages, p as int) {
                    Ok(seen.insert(p))
                } else {
                    Err(
                        Error::InvalidDB(
                            Fault::One("Page ", p, " from freelist missing from unused_pages"),
                        ),
                    )
                }
            },
        }
    }
}

/// What visiting a block leads to: the pages visited by then, and those to
/// visit next.
pub open spec fn visit(
    buf: Seq<u8>,
    pagesize: u64,
    meta: Meta,
    p: u64,
    visited: Set<u64>,
) -> Result<(Set<u64>, Seq<u64>), Error> {
    if !free(visited, meta.num_pages, p as int) {
        Err(Error::InvalidDB(Fault::One("Page ", p, " missing from unused_pages")))
    } else {
        match page::block_of(buf, p, pagesize, meta.version) {
            Err(e) => Err(e),
            Ok(b) => {
                let h = page::header_of(b);
                let count = h.count as int;
                match visit_overflow(
                    visited.insert(p),
                    meta.num_pages,
                    p,
                    h.overflow as int,
                ) {
                    Err(e) => Err(e),
                    Ok(seen) => if h.page_type == TYPE_BRANCH {
                        if branch_sorted(b, count) {
                            Ok((seen, branch_children(b, count)))
                        } else {
                            Err(
                                Error::InvalidDB(
                                    Fault::One("Branch page ", p, " contains unsorted elements"),
                                ),
                            )
                        }
                    } else if h.page_type == TYPE_LEAF {
                        match leaf_buckets(b, p, count) {
                            Err(e) => Err(e),
                            Ok(roots) => Ok((seen, roots)),
                        }
                    } else if h.page_type == TYPE_FREELIST {
                        if p != meta.freelist_page {
                            Err(
                                Error::InvalidDB(
                                    Fault::One("Found Invalid Freelist Page ", p, ""),
                                ),
                            )
                        } else {
                            match retired_in_time(b, count, meta.tx_id) {
                                Err(e) => Err(e),
                                Ok(_) => match visit_retired(seen, meta.num_pages, b, count) {
                                    Err(e) => Err(e),
                                    Ok(all) => Ok((all, Seq::empty())),
                                },
                            }
                        }
                    } else {
                        Err(
                            Error::InvalidDB(
                                Fault::Two(
                                    "Invalid page type ",
                                    h.page_type as u64,
                                    " for page ",
                                    p,
                                    "",
                                ),
                            ),
                        )
                    },
                }
            },
        }
    }
}

proof fn lemma_overflow_grows(visited: Set<u64>, num_pages: u64, p: u64, n: int)
    requires
        visit_overflow(visited, num_pages, p, n) is Ok,
    ensures
        visited.subset_of(visit_overflow(visited, num_pages, p, n)->Ok_0),
    decreases n,
{
    if n > 0 {
        lemma_overflow_grows(visited, num_pages, p, n - 1);
    }
}

proof fn lemma_retired_grows(visited: Set<u64>, num_pages: u64, b: Seq<u8>, n: int)
    requires
        visit_retired(visited, num_pages, b, n) is Ok,
    ensures
        visited.subset_of(visit_retired(visited, num_pages, b, n)->Ok_0),
    decreases n,
{
    if n > 0 {
        lemma_retired_grows(visited, num_pages, b, n - 1);
    }
}

/// Visiting a block leaves fewer pages to visit.
pub proof fn lemma_visit_shrinks(
    buf: Seq<u8>,
    pagesize: u64,
    meta: Meta,
    p: u64,
    visited: Set<u64>,
)
    requires
        visit(buf, pagesize, meta, p, visited) is Ok,
    ensures
        load::unvisited(
            visit(buf, pagesize, meta, p, visited)->Ok_0.0,
            meta.num_pages as int,
        ) < load::unvisited(visited, meta.num_pages as int),
{
    let b = page::block_of(buf, p, pagesize, meta.version)->Ok_0;
    let h = page::header_of(b);
    let first = visited.insert(p);
    let seen = visit_overflow(first, meta.num_pages, p, h.overflow as int)->Ok_0;
    lemma_overflow_grows(first, meta.num_pages, p, h.overflow as int);
    let all = visit(buf, pagesize, meta, p, visited)->Ok_0.0;
    if h.page_type == TYPE_FREELIST {
        lemma_retired_grows(seen, meta.num_pages, b, h.count as int);
    }
    assert(visited.subset_of(all));
    assert(all.contains(p)) by {
        assert(first.contains(p));
    }
    load::lemma_unvisited(visited, all, meta.num_pages as int);
}

/// The pages that a walk visits which takes the last of `stack` first.
pub open spec fn reach(
    buf: Seq<u8>,
    pagesize: u64,
    meta: Meta,
    stack: Seq<u64>,
    visited: Set<u64>,
) -> Result<Set<u64>, Error>
    decreases load::unvisited(visited, meta.num_pages as int),
    via reach_decreases
{
    if stack.len() == 0 {
        Ok(visited)
    } else {
        match visit(buf, pagesize, meta, stack.last(), visited) {
            Err(e) => Err(e),
            Ok((seen, next)) => reach(buf, pagesize, meta, stack.drop_last() + next, seen),
        }
    }
}

#[via_fn]
proof fn reach_decreases(
    buf: Seq<u8>,
    pagesize: u64,
    meta: Meta,
    stack: Seq<u64>,
    visited: Set<u64>,
) {
    if stack.len() > 0 {
        if visit(buf, pagesize, meta, stack.last(), visited) is Ok {
            lemma_visit_shrinks(buf, pagesize, meta, stack.last(), visited);
        }
    }
}

/// Whether `pages` are, in order, the pages that were not visited.
pub open spec fn left_out(pages: Seq<u64>, visited: Set<u64>, num_pages: u64) -> bool {
    &&& forall|i: int, j: int| 0 <= i < j < pages.len() ==> (#[trigger] pages[i]) < (
        #[trigger] pages[j])
    &&& forall|p: u64| #[trigger] pages.contains(p) <==> free(visited, num_pages, p as int)
}

/// What checking a file says.
pub open spec fn verdict(buf: Seq<u8>, pagesize: u64, meta: Meta, r: Result<(), Error>) -> bool {
    match reach(
        buf,
        pagesize,
        meta,
        seq![meta.root.root_page, meta.freelist_page],
        Set::empty(),
    ) {
        Err(e) => r == Err::<(), Error>(e),
        Ok(visited) => match r {
            Ok(_) => forall|p: int| !free(visited, meta.num_pages, p),
            Err(e) => match e {
                Error::InvalidDB(Fault::Unreachable(pages)) => pages@.len() > 0 && left_out(
                    pages@,
                    visited,
                    meta.num_pages,
                ),
                _ => false,
            },
        },
    }
}

/// Visits the pages that a block covers beyond its first.
fn mark_overflow(visited: &mut HashSet<u64>, num_pages: u64, p: u64, overflow: u64) -> (r: Result<
    (),
    Error,
>)
    requires
        p + overflow <= u64::MAX,
    ensures
        match r {
            Ok(_) => visit_overflow(old(visited)@, num_pages, p, overflow as int) == Ok::<
                Set<u64>,
                Error,
            >(final(visited)@),
            Err(e) => visit_overflow(old(visited)@, num_pages, p, overflow as int) == Err::<
                Set<u64>,
                Error,
            >(e),
        },
{
    let ghost was = visited@;
    let mut i: u64 = 0;
    while i < overflow
        invariant
            i <= overflow,
            p + overflow <= u64::MAX,
            was == old(visited)@,
            visit_overflow(was, num_pages, p, i as int) == Ok::<Set<u64>, Error>(visited@),
        decreases overflow - i,
    {
        let q: u64 = p + i + 1;
        if q < 2 || q >= num_pages || visited.contains(&q) {
            proof {
                lemma_overflow_stops(was, num_pages, p, i + 1, overflow as int);
            }
            return Err(
                Error::InvalidDB(
                    Fault::One("Overflow Page ", q, " from missing from unused_pages"),
                ),
            );
        }
        let _new: bool = visited.insert(q);
        i = i + 1;
    }
    Ok(())
}

proof fn lemma_overflow_stops(visited: Set<u64>, num_pages: u64, p: u64, n: int, k: int)
    requires
        0 <= n <= k,
        visit_overflow(visited, num_pages, p, n) is Err,
    ensures
        visit_overflow(visited, num_pages, p, k) == visit_overflow(visited, num_pages, p, n),
    decreases k,
{
    if n < k {
        lemma_overflow_stops(visited, num_pages, p, n, k - 1);
    }
}

proof fn lemma_retired_stops(visited: Set<u64>, num_pages: u64, b: Seq<u8>, n: int, k: int)
    requires
        0 <= n <= k,
        visit_retired(visited, num_pages, b, n) is Err,
    ensures
        visit_retired(visited, num_pages, b, k) == visit_retired(visited, num_pages, b, n),
    decreases k,
{
    if n < k {
        lemma_retired_stops(visited, num_pages, b, n, k - 1);
    }
}

proof fn lemma_in_time_stops(b: Seq<u8>, n: int, k: int, tx_id: u64)
    requires
        0 <= n <= k,
        retired_in_time(b, n, tx_id) is Err,
    ensures
        retired_in_time(b, k, tx_id) == retired_in_time(b, n, tx_id),
    decreases k,
{
    if n < k {
        lemma_in_time_stops(b, n, k - 1, tx_id);
    }
}

proof fn lemma_buckets_stop(b: Seq<u8>, p: u64, n: int, k: int)
    requires
        0 <= n <= k,
        leaf_buckets(b, p, n) is Err,
    ensures
        leaf_buckets(b, p, k) == leaf_buckets(b, p, n),
    decreases k,
{
    if n < k {
        lemma_buckets_stop(b, p, n, k - 1);
    }
}

/// Checks the order of a branch's keys, and notes its children.
fn check_branch(page: &Page<'_>, p: u64, stack: &mut Vec<u64>) -> (r: Result<(), Error>)
    requires
        page.wf(),
        page::header_of(page.block()).page_type == TYPE_BRANCH,
    ensures
        ({
            let n = page::header_of(page.block()).count as int;
            match r {
                Ok(_) => branch_sorted(page.block(), n) && final(stack)@ == old(stack)@
                    + branch_children(page.block(), n),
                Err(e) => !branch_sorted(page.block(), n) && e == Error::InvalidDB(
                    Fault::One("Branch page ", p, " contains unsorted elements"),
                ),
            }
        }),
{
    let ghost b = page.block();
    let ghost was = stack@;
    let count: u64 = page.header().count;
    proof {
        page.lemma_count_fits();
    }
    let n: usize = count as usize;
    let mut i: usize = 0;
    assert(was + branch_children(b, 0) =~= was);
    while i < n
        invariant
            page.wf(),
            b == page.block(),
            page::header_of(b).page_type == TYPE_BRANCH,
            page::header_of(b).count == n,
            i <= n,
            branch_sorted(b, i as int),
            stack@ == was + branch_children(b, i as int),
        decreases n - i,
    {
        stack.push(page.branch(i).page);
        if i > 0 && !less(page.branch_key(i - 1), page.branch_key(i)) {
            return Err(
                Error::InvalidDB(Fault::One("Branch page ", p, " contains unsorted elements")),
            );
        }
        assert(stack@ =~= was + branch_children(b, i + 1));
        i = i + 1;
    }
    Ok(())
}

/// Checks the order of a leaf's keys, and notes the roots of its buckets.
fn check_leaf(page: &Page<'_>, p: u64, stack: &mut Vec<u64>) -> (r: Result<(), Error>)
    requires
        page.wf(),
        page::header_of(page.block()).page_type == TYPE_LEAF,
    ensures
        ({
            let n = page::header_of(page.block()).count as int;
            match r {
                Ok(_) => leaf_buckets(page.block(), p, n) is Ok && final(stack)@ == old(stack)@
                    + leaf_buckets(page.block(), p, n)->Ok_0,
                Err(e) => leaf_buckets(page.block(), p, n) == Err::<Seq<u64>, Error>(e),
            }
        }),
{
    let ghost b = page.block();
    let ghost was = stack@;
    let count: u64 = page.header().count;
    proof {
        page.lemma_count_fits();
    }
    let n: usize = count as usize;
    let mut i: usize = 0;
    assert(was + Seq::<u64>::empty() =~= was);
    while i < n
        invariant
            page.wf(),
            b == page.block(),
            page::header_of(b).page_type == TYPE_LEAF,
            page::header_of(b).count == n,
            i <= n,
            leaf_buckets(b, p, i as int) is Ok,
            stack@ == was + leaf_buckets(b, p, i as int)->Ok_0,
        decreases n - i,
    {
        let element: LeafElement = page.leaf(i);
        let value: &[u8] = page.leaf_value(i);
        let bucket: bool = element.node_type == NODE_BUCKET;
        if bucket && value.len() < 16 {
            proof {
                lemma_buckets_stop(b, p, i + 1, n as int);
            }
            return Err(
                Error::InvalidDB(
                    Fault::Two("Page ", p, " index ", i as u64, " has a short bucket record"),
                ),
            );
        }
        if i > 0 && !less(page.leaf_key(i - 1), page.leaf_key(i)) {
            proof {
                lemma_buckets_stop(b, p, i + 1, n as int);
            }
            return Err(
                Error::InvalidDB(Fault::One("Leaf page ", p, " contains unsorted elements")),
            );
        }
        let ghost before = stack@;
        if bucket {
            let root: u64 = BucketMeta::from_bytes(value).root_page;
            stack.push(root);
            assert(stack@ =~= was + leaf_buckets(b, p, i + 1)->Ok_0);
        }
        i = i + 1;
    }
    Ok(())
}

/// Checks a freelist's entries, and visits their pages.
fn check_freelist(page: &Page<'_>, meta: Meta, visited: &mut HashSet<u64>) -> (r: Result<
    (),
    Error,
>)
    requires
        page.wf(),
        page::header_of(page.block()).page_type == TYPE_FREELIST,
    ensures
        ({
            let n = page::header_of(page.block()).count as int;
            let all = visit_retired(old(visited)@, meta.num_pages, page.block(), n);
            match (r, retired_in_time(page.block(), n, meta.tx_id)) {
                (Ok(_), Ok(_)) => all == Ok::<Set<u64>, Error>(final(visited)@),
                (Err(e), Ok(_)) => all == Err::<Set<u64>, Error>(e),
                (Err(e), Err(f)) => e == f,
                _ => false,
            }
        }),
{
    let ghost b = page.block();
    let ghost was = visited@;
    let count: u64 = page.header().count;
    proof {
        page.lemma_count_fits();
    }
    let n: usize = count as usize;
    let mut i: usize = 0;
    while i < n
        invariant
            page.wf(),
            b == page.block(),
            page::header_of(b).page_type == TYPE_FREELIST,
            page::header_of(b).count == n,
            i <= n,
            retired_in_time(b, i as int, meta.tx_id) == Ok::<(), Error>(()),
        decreases n - i,
    {
        let entry: RetiredPage = page.retired(i);
        if entry.retired_tx_id > meta.tx_id {
            proof {
                lemma_in_time_stops(b, i + 1, n as int, meta.tx_id);
            }
            return Err(
                Error::InvalidDB(
                    Fault::Two(
                        "Page ",
                        entry.page_id,
                        " has future retirement transaction ",
                        entry.retired_tx_id,
                        "",
                    ),
                ),
            );
        }
        i = i + 1;
    }
    let mut k: usize = 0;
    while k < n
        invariant
            page.wf(),
            b == page.block(),
            was == old(visited)@,
            page::header_of(b).page_type == TYPE_FREELIST,
            page::header_of(b).count == n,
            k <= n,
            retired_in_time(b, n as int, meta.tx_id) == Ok::<(), Error>(()),
            visit_retired(was, meta.num_pages, b, k as int) == Ok::<Set<u64>, Error>(visited@),
        decreases n - k,
    {
        let q: u64 = page.retired(k).page_id;
        if q < 2 || q >= meta.num_pages || visited.contains(&q) {
            proof {
                lemma_retired_stops(was, meta.num_pages, b, k + 1, n as int);
            }
            return Err(
                Error::InvalidDB(
                    Fault::One("Page ", q, " from freelist missing from unused_pages"),
                ),
            );
        }
        let _new: bool = visited.insert(q);
        k = k + 1;
    }
    Ok(())
}

/// Checks a whole file under a meta record: every page below the number of
/// allocated pages is reached just once from the root and the freelist, every
/// block is valid, and the keys of every page are in order.
pub fn check(buf: &[u8], pagesize: u64, meta: Meta) -> (r: Result<(), Error>)
    ensures
        verdict(buf@, pagesize, meta, r),
{
    let ghost start = seq![meta.root.root_page, meta.freelist_page];
    let ghost all = reach(buf@, pagesize, meta, start, Set::empty());
    let mut visited: HashSet<u64> = HashSet::new();
    let mut stack: Vec<u64> = Vec::new();
    stack.push(meta.root.root_page);
    stack.push(meta.freelist_page);
    assert(stack@ =~= start);
    assert(visited@ =~= Set::<u64>::empty());
    while stack.len() > 0
        invariant
            all == reach(
                buf@,
                pagesize,
                meta,
                seq![meta.root.root_page, meta.freelist_page],
                Set::empty(),
            ),
            all == reach(buf@, pagesize, meta, stack@, visited@),
        decreases load::unvisited(visited@, meta.num_pages as int),
    {
        let ghost todo = stack@;
        let ghost was = visited@;
        let p: u64 = match stack.pop() {
            Some(p) => p,
            None => return Ok(()),
        };
        assert(stack@ =~= todo.drop_last());
        if p < 2 || p >= meta.num_pages || visited.contains(&p) {
            return Err(Error::InvalidDB(Fault::One("Page ", p, " missing from unused_pages")));
        }
        let _new: bool = visited.insert(p);
        let page: Page = match Page::validate_version(buf, p, pagesize, meta.version) {
            Ok(page) => page,
            Err(e) => return Err(e),
        };
        let h: PageHeader = page.header();
        proof {
            assert(buf.len() <= usize::MAX);
            lemma_block_bound(buf@, p, pagesize, meta.version);
        }
        match mark_overflow(&mut visited, meta.num_pages, p, h.overflow) {
            Ok(_) => {},
            Err(e) => return Err(e),
        }
        if h.page_type == TYPE_BRANCH {
            match check_branch(&page, p, &mut stack) {
                Ok(_) => {},
                Err(e) => return Err(e),
            }
        } else if h.page_type == TYPE_LEAF {
            match check_leaf(&page, p, &mut stack) {
                Ok(_) => {},
                Err(e) => return Err(e),
            }
        } else if h.page_type == TYPE_FREELIST {
            if p != meta.freelist_page {
                return Err(Error::InvalidDB(Fault::One("Found Invalid Freelist Page ", p, "")));
            }
            match check_freelist(&page, meta, &mut visited) {
                Ok(_) => {},
                Err(e) => return Err(e),
            }
            assert(todo.drop_last() + Seq::<u64>::empty() =~= stack@);
        } else {
            return Err(
                Error::InvalidDB(
                    Fault::Two("Invalid page type ", h.page_type as u64, " for page ", p, ""),
                ),
            );
        }
        proof {
            lemma_visit_shrinks(buf@, pagesize, meta, p, was);
        }
    }
    let mut missing: Vec<u64> = Vec::new();
    let mut q: u64 = 2;
    while q < meta.num_pages
        invariant
            2 <= q,
            q <= meta.num_pages || q == 2,
            forall|i: int, j: int| 0 <= i < j < missing@.len() ==> (#[trigger] missing@[i]) < (
                #[trigger] missing@[j]),
            forall|i: int| 0 <= i < missing@.len() ==> (#[trigger] missing@[i]) < q,
            forall|p: u64| #[trigger]
                missing@.contains(p) <==> p < q && free(visited@, meta.num_pages, p as int),
        decreases meta.num_pages - q,
    {
        let ghost was = missing@;
        if !visited.contains(&q) {
            missing.push(q);
            proof {
                assert(missing@ =~= was.push(q));
                assert forall|p: u64| #[trigger] missing@.contains(p) <==> p < q + 1 && free(
                    visited@,
                    meta.num_pages,
                    p as int,
                ) by {
                    if p == q {
                        assert(missing@[was.len() as int] == q);
                    } else {
                        assert(missing@.contains(p) <==> was.contains(p)) by {
                            if was.contains(p) {
                                let i = choose|i: int| 0 <= i < was.len() && was[i] == p;
                                assert(missing@[i] == p);
                            }
                            if missing@.contains(p) {
                                let i = choose|i: int|
                                    0 <= i < missing@.len() && missing@[i] == p;
                                assert(was[i] == p);
                            }
                        }
                    }
                }
            }
        }
        q = q + 1;
    }
    if missing.len() > 0 {
        return Err(Error::InvalidDB(Fault::Unreachable(missing)));
    }
    proof {
        assert forall|p: int| !free(visited@, meta.num_pages, p) by {
            if free(visited@, meta.num_pages, p) {
                assert(missing@.contains(p as u64));
            }
        }
    }
    Ok(())
}

/// A valid block ends inside its file, so its pages have numbers.
pub proof fn lemma_block_bound(buf: Seq<u8>, p: u64, pagesize: u64, version: u32)
    requires
        page::block_of(buf, p, pagesize, version) is Ok,
        buf.len() <= usize::MAX,
    ensures
        p + page::header_of(page::block_of(buf, p, pagesize, version)->Ok_0).overflow <= u64::MAX,
{
    let offset = p * pagesize;
    let rest = buf.skip(offset);
    let h = page::header_of(rest);
    let b = page::block_of(buf, p, pagesize, version)->Ok_0;
    let len = (h.overflow + 1) * pagesize;
    assert(offset >= 0) by (nonlinear_arith)
        requires
            offset == p * pagesize,
            p >= 0,
            pagesize >= 0,
    ;
    assert(b =~= rest.take(len));
    page::lemma_header_local(rest, b);
    assert(pagesize > 0) by (nonlinear_arith)
        requires
            len == (h.overflow + 1) * pagesize,
            len >= 40,
            pagesize >= 0,
    ;
    assert(p + h.overflow + 1 <= offset + len) by (nonlinear_arith)
        requires
            offset == p * pagesize,
            len == (h.overflow + 1) * pagesize,
            pagesize >= 1,
            p >= 0,
            h.overflow >= 0,
    ;
}

} // verus!
