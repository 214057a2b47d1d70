//! What holds of the check of a whole file: it passes just the healthy ones.

use crate::bytes;
use crate::db::load;
use crate::error::{Error, Fault};
use crate::storage::check;
use crate::storage::meta::{BucketMeta, Meta};
use crate::storage::page::{self, NODE_BUCKET, TYPE_BRANCH, TYPE_FREELIST, TYPE_LEAF};
use vstd::prelude::*;

verus! {

/// The roots of the buckets among the first `n` entries of a leaf.
pub open spec fn nested_roots(b: Seq<u8>, n: int) -> Seq<u64>
    decreases n,
{
    if n <= 0 {
        Seq::empty()
    } else {
        let front = nested_roots(b, n - 1);
        if page::leaf_at(b, n - 1).node_type == NODE_BUCKET {
            front.push(BucketMeta::of(page::leaf_value(b, n - 1)).root_page)
        } else {
            front
        }
    }
}

/// The pages that a block leads to: the children of a branch, and the roots of
/// the buckets in a leaf.
pub open spec fn links(b: Seq<u8>) -> Seq<u64> {
    let h = page::header_of(b);
    if h.page_type == TYPE_BRANCH {
        Seq::new(h.count as nat, |i: int| page::branch_at(b, i).page)
    } else if h.page_type == TYPE_LEAF {
        nested_roots(b, h.count as int)
    } else {
        Seq::empty()
    }
}

/// The pages that a freelist lists.
pub open spec fn freed(b: Seq<u8>) -> Seq<u64> {
    let h = page::header_of(b);
    if h.page_type == TYPE_FREELIST {
        Seq::new(h.count as nat, |i: int| page::retired_at(b, i).page_id)
    } else {
        Seq::empty()
    }
}

/// The pages of a block that begins at a page and covers `n` more.
pub open spec fn run(p: u64, n: int) -> Seq<u64> {
    Seq::new((n + 1) as nat, |i: int| (p + i) as u64)
}

/// The pages that a block accounts for: its own, and those that it lists as
/// free.
pub open spec fn own_pages(b: Seq<u8>, p: u64) -> Seq<u64> {
    run(p, page::header_of(b).overflow as int) + freed(b)
}

/// Whether each key of a branch or a leaf comes before all that follow.
pub open spec fn keys_ascend(b: Seq<u8>) -> bool {
    let h = page::header_of(b);
    &&& h.page_type == TYPE_BRANCH ==> forall|i: int, j: int|
        0 <= i < j < h.count ==> bytes::lex_lt(
            #[trigger] page::branch_key(b, i),
            #[trigger] page::branch_key(b, j),
        )
    &&& h.page_type == TYPE_LEAF ==> forall|i: int, j: int|
        0 <= i < j < h.count ==> bytes::lex_lt(
            #[trigger] page::leaf_key(b, i),
            #[trigger] page::leaf_key(b, j),
        )
}

/// Whether a block is as it should be: a branch or a leaf with its keys in
/// order, and whole bucket records, or the freelist, with no page released by a
/// transaction to come.
pub open spec fn block_right(b: Seq<u8>, p: u64, meta: Meta) -> bool {
    let h = page::header_of(b);
    &&& h.page_type == TYPE_BRANCH || h.page_type == TYPE_LEAF || h.page_type == TYPE_FREELIST
    &&& keys_ascend(b)
    &&& h.page_type == TYPE_LEAF ==> forall|i: int|
        0 <= i < h.count && (#[trigger] page::leaf_at(b, i)).node_type == NODE_BUCKET
            ==> page::leaf_value(b, i).len() >= 16
    &&& h.page_type == TYPE_FREELIST ==> p == meta.freelist_page && forall|i: int|
        0 <= i < h.count ==> (#[trigger] page::retired_at(b, i)).retired_tx_id <= meta.tx_id
}

/// Whether the blocks at some pages, and all that they lead to, are valid and as
/// they should be, down to some depth at most.
pub open spec fn whole(buf: Seq<u8>, pagesize: u64, meta: Meta, ids: Seq<u64>, depth: nat) -> bool
    decreases depth, ids.len(),
{
    ids.len() > 0 ==> {
        let b = page::block_of(buf, ids.last(), pagesize, meta.version)->Ok_0;
        &&& depth > 0
        &&& page::block_of(buf, ids.last(), pagesize, meta.version) is Ok
        &&& block_right(b, ids.last(), meta)
        &&& whole(buf, pagesize, meta, links(b), (depth - 1) as nat)
        &&& whole(buf, pagesize, meta, ids.drop_last(), depth)
    }
}

/// The pages that the blocks at some pages, and all that they lead to, account
/// for.
pub open spec fn covered(
    buf: Seq<u8>,
    pagesize: u64,
    meta: Meta,
    ids: Seq<u64>,
    depth: nat,
) -> Seq<u64>
    decreases depth, ids.len(),
{
    if ids.len() == 0 || depth == 0 {
        Seq::empty()
    } else {
        let b = page::block_of(buf, ids.last(), pagesize, meta.version)->Ok_0;
        covered(buf, pagesize, meta, ids.drop_last(), depth) + own_pages(b, ids.last()) + covered(
            buf,
            pagesize,
            meta,
            links(b),
            (depth - 1) as nat,
        )
    }
}

/// Whether a file is healthy under a meta record: all that the root and the
/// freelist lead to is valid and in order, and accounts for every page behind
/// the meta pages, each just once.
pub open spec fn healthy(buf: Seq<u8>, pagesize: u64, meta: Meta) -> bool {
    exists|depth: nat| #[trigger]
        accounts(buf, pagesize, meta, starts(meta), depth)
}

/// The pages that all others are reached from: the root's and the freelist's.
pub open spec fn starts(meta: Meta) -> Seq<u64> {
    seq![meta.root.root_page, meta.freelist_page]
}

/// Whether the blocks at some pages account for every page of a file just once.
pub open spec fn accounts(
    buf: Seq<u8>,
    pagesize: u64,
    meta: Meta,
    ids: Seq<u64>,
    depth: nat,
) -> bool {
    let pages = covered(buf, pagesize, meta, ids, depth);
    &&& whole(buf, pagesize, meta, ids, depth)
    &&& pages.no_duplicates()
    &&& forall|p: u64| #[trigger] pages.contains(p) <==> 2 <= p < meta.num_pages
}

/// Whether pages can be visited: they are in the file, each occurs once, and
/// none was visited before.
spec fn fresh(pages: Seq<u64>, visited: Set<u64>, num_pages: u64) -> bool {
    &&& pages.no_duplicates()
    &&& forall|i: int|
        0 <= i < pages.len() ==> 2 <= #[trigger] pages[i] < num_pages && !visited.contains(
            pages[i],
        )
}

/// The pages visited after some more.
spec fn grown(visited: Set<u64>, pages: Seq<u64>) -> Set<u64> {
    Set::new(|p: u64| visited.contains(p) || pages.contains(p))
}

proof fn lemma_contains_concat(a: Seq<u64>, b: Seq<u64>)
    ensures
        forall|p: u64| #[trigger] (a + b).contains(p) <==> a.contains(p) || b.contains(p),
{
    assert forall|p: u64| #[trigger] (a + b).contains(p) <==> a.contains(p) || b.contains(p) by {
        if a.contains(p) {
            let i = choose|i: int| 0 <= i < a.len() && a[i] == p;
            assert((a + b)[i] == p);
        }
        if b.contains(p) {
            let i = choose|i: int| 0 <= i < b.len() && b[i] == p;
            assert((a + b)[a.len() + i] == p);
        }
        if (a + b).contains(p) {
            let i = choose|i: int| 0 <= i < (a + b).len() && (a + b)[i] == p;
            if i < a.len() {
                assert(a[i] == p);
            } else {
                assert(b[i - a.len()] == p);
            }
        }
    }
}

/// Pages can be visited together just if they can one part after the other.
proof fn lemma_fresh_concat(a: Seq<u64>, b: Seq<u64>, visited: Set<u64>, num_pages: u64)
    ensures
        fresh(a + b, visited, num_pages) <==> fresh(a, visited, num_pages) && fresh(
            b,
            grown(visited, a),
            num_pages,
        ),
        grown(visited, a + b) == grown(grown(visited, a), b),
{
    let c = a + b;
    lemma_contains_concat(a, b);
    assert(grown(visited, c) =~= grown(grown(visited, a), b));
    if fresh(c, visited, num_pages) {
        assert forall|i: int, j: int| 0 <= i < a.len() && 0 <= j < a.len() && i != j implies a[i]
            != a[j] by {
            assert(c[i] != c[j]);
        }
        assert forall|i: int, j: int| 0 <= i < b.len() && 0 <= j < b.len() && i != j implies b[i]
            != b[j] by {
            assert(c[a.len() + i] != c[a.len() + j]);
        }
        assert forall|i: int| 0 <= i < a.len() implies 2 <= #[trigger] a[i] < num_pages
            && !visited.contains(a[i]) by {
            assert(c[i] == a[i]);
        }
        assert forall|i: int| 0 <= i < b.len() implies 2 <= #[trigger] b[i] < num_pages && !grown(
            visited,
            a,
        ).contains(b[i]) by {
            assert(c[a.len() + i] == b[i]);
            if a.contains(b[i]) {
                let j = choose|j: int| 0 <= j < a.len() && a[j] == b[i];
                assert(c[j] != c[a.len() + i]);
            }
        }
    }
    if fresh(a, visited, num_pages) && fresh(b, grown(visited, a), num_pages) {
        assert forall|i: int, j: int| 0 <= i < c.len() && 0 <= j < c.len() && i != j implies c[i]
            != c[j] by {
            let n = a.len() as int;
            if i < n && j >= n {
                assert(a.contains(a[i]));
                assert(!grown(visited, a).contains(b[j - n]));
            } else if j < n && i >= n {
                assert(a.contains(a[j]));
                assert(!grown(visited, a).contains(b[i - n]));
            } else if i >= n {
                assert(b[i - n] != b[j - n]);
            }
        }
        assert forall|i: int| 0 <= i < c.len() implies 2 <= #[trigger] c[i] < num_pages
            && !visited.contains(c[i]) by {
            if i >= a.len() {
                assert(c[i] == b[i - a.len()]);
                assert(!grown(visited, a).contains(b[i - a.len()]));
            } else {
                assert(c[i] == a[i]);
            }
        }
    }
}

/// The order of the parts makes no difference.
proof fn lemma_fresh_swap(a: Seq<u64>, b: Seq<u64>, visited: Set<u64>, num_pages: u64)
    ensures
        fresh(a + b, visited, num_pages) <==> fresh(b + a, visited, num_pages),
        grown(visited, a + b) == grown(visited, b + a),
{
    lemma_fresh_concat(a, b, visited, num_pages);
    lemma_fresh_concat(b, a, visited, num_pages);
    lemma_fresh_half(a, b, visited, num_pages);
    lemma_fresh_half(b, a, visited, num_pages);
    lemma_contains_concat(a, b);
    lemma_contains_concat(b, a);
    assert(grown(visited, a + b) =~= grown(visited, b + a));
}

proof fn lemma_fresh_half(a: Seq<u64>, b: Seq<u64>, visited: Set<u64>, num_pages: u64)
    ensures
        fresh(a, visited, num_pages) && fresh(b, grown(visited, a), num_pages) ==> fresh(
            b,
            visited,
            num_pages,
        ) && fresh(a, grown(visited, b), num_pages),
{
    if fresh(a, visited, num_pages) && fresh(b, grown(visited, a), num_pages) {
        assert forall|i: int| 0 <= i < b.len() implies 2 <= #[trigger] b[i] < num_pages
            && !visited.contains(b[i]) by {
            assert(!grown(visited, a).contains(b[i]));
        }
        assert forall|i: int| 0 <= i < a.len() implies 2 <= #[trigger] a[i] < num_pages && !grown(
            visited,
            b,
        ).contains(a[i]) by {
            if b.contains(a[i]) {
                let j = choose|j: int| 0 <= j < b.len() && b[j] == a[i];
                assert(a.contains(a[i]));
                assert(!grown(visited, a).contains(b[j]));
            }
        }
    }
}

/// One page more.
proof fn lemma_fresh_push(a: Seq<u64>, p: u64, visited: Set<u64>, num_pages: u64)
    ensures
        fresh(a.push(p), visited, num_pages) <==> fresh(a, visited, num_pages) && check::free(
            grown(visited, a),
            num_pages,
            p as int,
        ),
        grown(visited, a.push(p)) == grown(visited, a).insert(p),
{
    let one = seq![p];
    assert(a.push(p) =~= a + one);
    lemma_fresh_concat(a, one, visited, num_pages);
    assert(one.contains(one[0]));
    assert(fresh(one, grown(visited, a), num_pages) <==> check::free(
        grown(visited, a),
        num_pages,
        p as int,
    )) by {
        if fresh(one, grown(visited, a), num_pages) {
            assert(2 <= one[0] < num_pages);
        }
    }
    assert(grown(visited, a.push(p)) =~= grown(visited, a).insert(p));
}

/// Visiting the pages of a block one by one.
proof fn lemma_overflow(visited: Set<u64>, num_pages: u64, p: u64, n: int)
    requires
        check::free(visited, num_pages, p as int),
        n >= 0,
        p + n <= u64::MAX,
    ensures
        check::visit_overflow(visited.insert(p), num_pages, p, n) is Ok <==> fresh(
            run(p, n),
            visited,
            num_pages,
        ),
        check::visit_overflow(visited.insert(p), num_pages, p, n) is Ok
            ==> check::visit_overflow(visited.insert(p), num_pages, p, n)->Ok_0 == grown(
            visited,
            run(p, n),
        ),
    decreases n,
{
    let none = Seq::<u64>::empty();
    if n == 0 {
        lemma_fresh_push(none, p, visited, num_pages);
        assert(run(p, 0) =~= none.push(p));
        assert(grown(visited, none) =~= visited);
    } else {
        lemma_overflow(visited, num_pages, p, n - 1);
        lemma_fresh_push(run(p, n - 1), (p + n) as u64, visited, num_pages);
        assert(run(p, n) =~= run(p, n - 1).push((p + n) as u64));
    }
}

/// Visiting the pages of a freelist one by one.
proof fn lemma_retired(visited: Set<u64>, num_pages: u64, b: Seq<u8>, n: int)
    requires
        n >= 0,
    ensures
        ({
            let list = Seq::new(n as nat, |i: int| page::retired_at(b, i).page_id);
            let r = check::visit_retired(visited, num_pages, b, n);
            &&& r is Ok <==> fresh(list, visited, num_pages)
            &&& r is Ok ==> r->Ok_0 == grown(visited, list)
        }),
    decreases n,
{
    let list = Seq::new(n as nat, |i: int| page::retired_at(b, i).page_id);
    if n == 0 {
        assert(list =~= Seq::<u64>::empty());
        assert(grown(visited, list) =~= visited);
    } else {
        let front = Seq::new((n - 1) as nat, |i: int| page::retired_at(b, i).page_id);
        let p = page::retired_at(b, n - 1).page_id;
        lemma_retired(visited, num_pages, b, n - 1);
        lemma_fresh_push(front, p, visited, num_pages);
        assert(list =~= front.push(p));
    }
}

proof fn lemma_in_time(b: Seq<u8>, n: int, tx_id: u64)
    requires
        n >= 0,
    ensures
        check::retired_in_time(b, n, tx_id) is Ok <==> forall|i: int|
            0 <= i < n ==> (#[trigger] page::retired_at(b, i)).retired_tx_id <= tx_id,
    decreases n,
{
    if n > 0 {
        lemma_in_time(b, n - 1, tx_id);
        if check::retired_in_time(b, n, tx_id) is Ok {
            assert forall|i: int| 0 <= i < n implies (#[trigger] page::retired_at(
                b,
                i,
            )).retired_tx_id <= tx_id by {}
        }
    }
}

/// The keys of a leaf one after the other.
proof fn lemma_leaf(b: Seq<u8>, p: u64, n: int)
    requires
        n >= 0,
    ensures
        ({
            let r = check::leaf_buckets(b, p, n);
            &&& r is Ok <==> (forall|i: int, j: int|
                0 <= i < j < n ==> bytes::lex_lt(
                    #[trigger] page::leaf_key(b, i),
                    #[trigger] page::leaf_key(b, j),
                )) && (forall|i: int|
                0 <= i < n && (#[trigger] page::leaf_at(b, i)).node_type == NODE_BUCKET
                    ==> page::leaf_value(b, i).len() >= 16)
            &&& r is Ok ==> r->Ok_0 == nested_roots(b, n)
        }),
    decreases n,
{
    if n > 0 {
        lemma_leaf(b, p, n - 1);
        let r = check::leaf_buckets(b, p, n);
        if r is Ok {
            assert forall|i: int, j: int| 0 <= i < j < n implies bytes::lex_lt(
                #[trigger] page::leaf_key(b, i),
                #[trigger] page::leaf_key(b, j),
            ) by {
                if j == n - 1 && i < n - 2 {
                    assert(bytes::lex_lt(page::leaf_key(b, i), page::leaf_key(b, n - 2)));
                    bytes::lemma_lex_transitive(
                        page::leaf_key(b, i),
                        page::leaf_key(b, n - 2),
                        page::leaf_key(b, n - 1),
                    );
                }
            }
        } else if check::leaf_buckets(b, p, n - 1) is Ok {
            let last = page::leaf_at(b, n - 1);
            if n >= 2 && !bytes::lex_lt(page::leaf_key(b, n - 2), page::leaf_key(b, n - 1)) {
                assert(!(0 <= n - 2 < n - 1 < n ==> bytes::lex_lt(
                    page::leaf_key(b, n - 2),
                    page::leaf_key(b, n - 1),
                )));
            } else {
                assert(last.node_type == NODE_BUCKET && page::leaf_value(b, n - 1).len() < 16);
            }
        }
    }
}

/// The keys of a branch one after the other.
proof fn lemma_branch(b: Seq<u8>, n: int)
    ensures
        check::branch_sorted(b, n) <==> forall|i: int, j: int|
            0 <= i < j < n ==> bytes::lex_lt(
                #[trigger] page::branch_key(b, i),
                #[trigger] page::branch_key(b, j),
            ),
    decreases n,
{
    if n > 0 {
        lemma_branch(b, n - 1);
        if check::branch_sorted(b, n) {
            assert(check::branch_sorted(b, n - 1));
            assert forall|i: int, j: int| 0 <= i < j < n implies bytes::lex_lt(
                #[trigger] page::branch_key(b, i),
                #[trigger] page::branch_key(b, j),
            ) by {
                if j == n - 1 {
                    assert(bytes::lex_lt(page::branch_key(b, j - 1), page::branch_key(b, j)));
                    if i < n - 2 {
                        assert(bytes::lex_lt(page::branch_key(b, i), page::branch_key(b, n - 2)));
                        bytes::lemma_lex_transitive(
                            page::branch_key(b, i),
                            page::branch_key(b, n - 2),
                            page::branch_key(b, n - 1),
                        );
                    }
                }
            }
        }
    }
}

/// A visit succeeds just where a block is as it should be, and its pages can be
/// visited; it leads to what the block leads to.
proof fn lemma_visit(buf: Seq<u8>, pagesize: u64, meta: Meta, p: u64, visited: Set<u64>)
    requires
        buf.len() <= usize::MAX,
    ensures
        ({
            let r = check::visit(buf, pagesize, meta, p, visited);
            let b = page::block_of(buf, p, pagesize, meta.version)->Ok_0;
            &&& r is Ok <==> page::block_of(buf, p, pagesize, meta.version) is Ok && block_right(
                b,
                p,
                meta,
            ) && fresh(own_pages(b, p), visited, meta.num_pages)
            &&& r is Ok ==> r->Ok_0.0 == grown(visited, own_pages(b, p)) && r->Ok_0.1 == links(b)
        }),
{
    let n = meta.num_pages;
    if page::block_of(buf, p, pagesize, meta.version) is Ok {
        let b = page::block_of(buf, p, pagesize, meta.version)->Ok_0;
        let h = page::header_of(b);
        let own = run(p, h.overflow as int);
        check::lemma_block_bound(buf, p, pagesize, meta.version);
        lemma_fresh_concat(own, freed(b), visited, n);
        lemma_branch(b, h.count as int);
        lemma_leaf(b, p, h.count as int);
        lemma_in_time(b, h.count as int, meta.tx_id);
        if fresh(own, visited, n) {
            assert(own[0] == p);
        }
        if check::free(visited, n, p as int) {
            lemma_overflow(visited, n, p, h.overflow as int);
            let seen = grown(visited, own);
            lemma_retired(seen, n, b, h.count as int);
            if h.page_type != TYPE_FREELIST {
                assert(freed(b) =~= Seq::<u64>::empty());
                assert(grown(seen, freed(b)) =~= seen);
            }
            if h.page_type == TYPE_BRANCH {
                assert(links(b) =~= check::branch_children(b, h.count as int));
            }
        }
    }
}

/// Pages of several blocks together.
proof fn lemma_concat(
    buf: Seq<u8>,
    pagesize: u64,
    meta: Meta,
    a: Seq<u64>,
    c: Seq<u64>,
    depth: nat,
)
    ensures
        whole(buf, pagesize, meta, a + c, depth) <==> whole(buf, pagesize, meta, a, depth)
            && whole(buf, pagesize, meta, c, depth),
        covered(buf, pagesize, meta, a + c, depth) == covered(buf, pagesize, meta, a, depth)
            + covered(buf, pagesize, meta, c, depth),
    decreases c.len(),
{
    if c.len() == 0 {
        assert(a + c =~= a);
        assert(covered(buf, pagesize, meta, a, depth) + Seq::<u64>::empty() =~= covered(
            buf,
            pagesize,
            meta,
            a,
            depth,
        ));
    } else {
        lemma_concat(buf, pagesize, meta, a, c.drop_last(), depth);
        assert((a + c).drop_last() =~= a + c.drop_last());
        assert((a + c).last() == c.last());
        assert(covered(buf, pagesize, meta, a + c, depth) =~= covered(
            buf,
            pagesize,
            meta,
            a,
            depth,
        ) + covered(buf, pagesize, meta, c, depth));
    }
}

/// What is whole down to a depth is whole further down.
proof fn lemma_deeper(buf: Seq<u8>, pagesize: u64, meta: Meta, ids: Seq<u64>, depth: nat)
    requires
        whole(buf, pagesize, meta, ids, depth),
    ensures
        whole(buf, pagesize, meta, ids, depth + 1),
        covered(buf, pagesize, meta, ids, depth + 1) == covered(buf, pagesize, meta, ids, depth),
    decreases depth, ids.len(),
{
    if ids.len() > 0 {
        let b = page::block_of(buf, ids.last(), pagesize, meta.version)->Ok_0;
        lemma_deeper(buf, pagesize, meta, links(b), (depth - 1) as nat);
        lemma_deeper(buf, pagesize, meta, ids.drop_last(), depth);
    }
}

/// What a walk visits is what the blocks that it starts from account for.
proof fn lemma_reach(
    buf: Seq<u8>,
    pagesize: u64,
    meta: Meta,
    stack: Seq<u64>,
    visited: Set<u64>,
) -> (depth: nat)
    requires
        buf.len() <= usize::MAX,
        check::reach(buf, pagesize, meta, stack, visited) is Ok,
    ensures
        ({
            let pages = covered(buf, pagesize, meta, stack, depth);
            &&& whole(buf, pagesize, meta, stack, depth)
            &&& fresh(pages, visited, meta.num_pages)
            &&& check::reach(buf, pagesize, meta, stack, visited)->Ok_0 == grown(visited, pages)
        }),
    decreases load::unvisited(visited, meta.num_pages as int),
{
    let n = meta.num_pages;
    if stack.len() == 0 {
        assert(grown(visited, Seq::<u64>::empty()) =~= visited);
        0
    } else {
        let p = stack.last();
        let front = stack.drop_last();
        lemma_visit(buf, pagesize, meta, p, visited);
        check::lemma_visit_shrinks(buf, pagesize, meta, p, visited);
        let b = page::block_of(buf, p, pagesize, meta.version)->Ok_0;
        let own = own_pages(b, p);
        let d = lemma_reach(buf, pagesize, meta, front + links(b), grown(visited, own));
        lemma_concat(buf, pagesize, meta, front, links(b), d);
        lemma_deeper(buf, pagesize, meta, front, d);
        let x = covered(buf, pagesize, meta, front, d);
        let y = covered(buf, pagesize, meta, links(b), d);
        lemma_middle(x, own, y, visited, n);
        d + 1
    }
}

/// Visiting a part in the middle first makes no difference.
proof fn lemma_middle(x: Seq<u64>, own: Seq<u64>, y: Seq<u64>, visited: Set<u64>, num_pages: u64)
    ensures
        fresh(x + own + y, visited, num_pages) <==> fresh(own, visited, num_pages) && fresh(
            x + y,
            grown(visited, own),
            num_pages,
        ),
        grown(visited, x + own + y) == grown(grown(visited, own), x + y),
{
    lemma_fresh_concat(x + own, y, visited, num_pages);
    lemma_fresh_swap(x, own, visited, num_pages);
    lemma_fresh_concat(own + x, y, visited, num_pages);
    assert(own + x + y =~= own + (x + y));
    lemma_fresh_concat(own, x + y, visited, num_pages);
}

/// A walk from blocks that are whole, and whose pages can all be visited,
/// visits them.
proof fn lemma_reaches(
    buf: Seq<u8>,
    pagesize: u64,
    meta: Meta,
    stack: Seq<u64>,
    visited: Set<u64>,
    depth: nat,
)
    requires
        buf.len() <= usize::MAX,
        whole(buf, pagesize, meta, stack, depth),
        fresh(covered(buf, pagesize, meta, stack, depth), visited, meta.num_pages),
    ensures
        check::reach(buf, pagesize, meta, stack, visited) == Ok::<Set<u64>, Error>(
            grown(visited, covered(buf, pagesize, meta, stack, depth)),
        ),
    decreases load::unvisited(visited, meta.num_pages as int),
{
    let n = meta.num_pages;
    if stack.len() == 0 {
        assert(grown(visited, Seq::<u64>::empty()) =~= visited);
    } else {
        let p = stack.last();
        let front = stack.drop_last();
        let b = page::block_of(buf, p, pagesize, meta.version)->Ok_0;
        let own = own_pages(b, p);
        let below = (depth - 1) as nat;
        let x = covered(buf, pagesize, meta, front, depth);
        let y = covered(buf, pagesize, meta, links(b), below);
        lemma_middle(x, own, y, visited, n);
        lemma_visit(buf, pagesize, meta, p, visited);
        check::lemma_visit_shrinks(buf, pagesize, meta, p, visited);
        lemma_deeper(buf, pagesize, meta, links(b), below);
        lemma_concat(buf, pagesize, meta, front, links(b), depth);
        lemma_reaches(buf, pagesize, meta, front + links(b), grown(visited, own), depth);
    }
}

/// The check passes just the healthy files: those in which all that the root and
/// the freelist lead to is valid, every branch and every leaf has its keys in
/// order, and every page is accounted for once.
pub proof fn law_check_passes_healthy_files(
    buf: Seq<u8>,
    pagesize: u64,
    meta: Meta,
    r: Result<(), Error>,
)
    requires
        buf.len() <= usize::MAX,
        check::verdict(buf, pagesize, meta, r),
    ensures
        r is Ok <==> healthy(buf, pagesize, meta),
{
    let none = Set::<u64>::empty();
    let ids = starts(meta);
    let all = check::reach(buf, pagesize, meta, ids, none);
    assert(all == check::reach(
        buf,
        pagesize,
        meta,
        seq![meta.root.root_page, meta.freelist_page],
        Set::empty(),
    ));
    if r is Ok {
        let depth = lemma_reach(buf, pagesize, meta, ids, none);
        let pages = covered(buf, pagesize, meta, ids, depth);
        assert forall|p: u64| #[trigger] pages.contains(p) <==> 2 <= p < meta.num_pages by {
            assert(!check::free(all->Ok_0, meta.num_pages, p as int));
            assert(all->Ok_0.contains(p) <==> pages.contains(p));
            if pages.contains(p) {
                let i = choose|i: int| 0 <= i < pages.len() && pages[i] == p;
                assert(2 <= pages[i] < meta.num_pages);
            }
        }
        assert(accounts(buf, pagesize, meta, ids, depth));
    }
    if healthy(buf, pagesize, meta) {
        let depth = choose|depth: nat| #[trigger] accounts(buf, pagesize, meta, ids, depth);
        let pages = covered(buf, pagesize, meta, ids, depth);
        assert forall|i: int| 0 <= i < pages.len() implies 2 <= #[trigger] pages[i]
            < meta.num_pages by {
            assert(pages.contains(pages[i]));
        }
        lemma_reaches(buf, pagesize, meta, ids, none, depth);
        if r is Err {
            match r->Err_0 {
                Error::InvalidDB(Fault::Unreachable(list)) => {
                    let p = list@[0];
                    assert(list@.contains(p));
                    assert(check::free(grown(none, pages), meta.num_pages, p as int));
                    assert(pages.contains(p));
                },
                _ => {},
            }
        }
    }
}

} // verus!
