//! What holds of walking through a range of a bucket.

use crate::api::cursor::{self, CursorView};
use crate::bytes;
use crate::data::DataView;
use crate::db::read::{self, BoundView};
use vstd::prelude::*;

verus! {

/// What a range gives, one entry after the other, up to `n` of them.
pub open spec fn given(
    l: Seq<DataView>,
    c: CursorView,
    start: BoundView,
    end: BoundView,
    n: nat,
) -> Seq<DataView>
    decreases n,
{
    if n == 0 {
        Seq::empty()
    } else {
        match cursor::range_step(l, c, start, end) {
            (None, _) => Seq::empty(),
            (Some(data), after) => seq![data] + given(l, after, start, end, (n - 1) as nat),
        }
    }
}

/// Whether a key does not lie beyond the end of a range.
spec fn reached(end: BoundView, d: DataView) -> bool {
    read::within_bounds(BoundView::Unbounded, end, d.key())
}

/// A range that has given entry `p` goes on up to the first entry beyond its
/// end.
proof fn lemma_given_on(
    l: Seq<DataView>,
    c: CursorView,
    p: int,
    start: BoundView,
    end: BoundView,
    n: nat,
) -> (e: int)
    requires
        0 <= p < l.len(),
        c.pos == Some(p),
        c.next_called,
        n >= l.len() - p,
    ensures
        p < e <= l.len(),
        given(l, c, start, end, n) == l.subrange(p + 1, e),
        forall|i: int| p < i < e ==> reached(end, #[trigger] l[i]),
        e < l.len() ==> !reached(end, l[e]),
    decreases l.len() - p,
{
    if p + 1 >= l.len() {
        assert(l.subrange(p + 1, p + 1) =~= Seq::<DataView>::empty());
        p + 1
    } else if !reached(end, l[p + 1]) {
        assert(l.subrange(p + 1, p + 1) =~= Seq::<DataView>::empty());
        p + 1
    } else {
        let after = cursor::range_step(l, c, start, end).1;
        let e = lemma_given_on(l, after, p + 1, start, end, (n - 1) as nat);
        assert(seq![l[p + 1]] + l.subrange(p + 2, e) =~= l.subrange(p + 1, e));
        e
    }
}

/// What lies beyond the end of a range has nothing of the range behind it.
proof fn lemma_beyond(end: BoundView, a: Seq<u8>, b: Seq<u8>)
    requires
        bytes::lex_lt(a, b),
        !read::within_bounds(BoundView::Unbounded, end, a),
    ensures
        !read::within_bounds(BoundView::Unbounded, end, b),
{
    match end {
        BoundView::Included(k) => {
            bytes::lemma_lex_total(a, k);
            bytes::lemma_lex_total(b, k);
            if bytes::lex_lt(b, k) {
                bytes::lemma_lex_transitive(a, b, k);
            }
        },
        BoundView::Excluded(k) => {
            if bytes::lex_lt(b, k) {
                bytes::lemma_lex_transitive(a, b, k);
            }
        },
        BoundView::Unbounded => {},
    }
}

/// What lies within the start of a range has all that comes after it within
/// the start too.
proof fn lemma_begun(start: BoundView, a: Seq<u8>, b: Seq<u8>)
    requires
        bytes::lex_lt(a, b),
        read::within_bounds(start, BoundView::Unbounded, a),
    ensures
        read::within_bounds(start, BoundView::Unbounded, b),
{
    match start {
        BoundView::Included(k) => {
            if bytes::lex_lt(k, a) {
                bytes::lemma_lex_transitive(k, a, b);
            }
        },
        BoundView::Excluded(k) => {
            bytes::lemma_lex_transitive(k, a, b);
        },
        BoundView::Unbounded => {},
    }
}

/// Where a range begins: at the first entry that lies within its start.
proof fn lemma_begins(l: Seq<DataView>, start: BoundView, end: BoundView) -> (k: int)
    requires
        cursor::in_order(l),
    ensures
        0 <= k <= l.len(),
        forall|j: int|
            0 <= j < k ==> !read::within_bounds(
                start,
                BoundView::Unbounded,
                (#[trigger] l[j]).key(),
            ),
        k < l.len() ==> read::within_bounds(start, BoundView::Unbounded, l[k].key()),
        ({
            let (r, after) = cursor::range_step(l, cursor::unplaced(), start, end);
            if k < l.len() && reached(end, l[k]) {
                r == Some(l[k]) && after.pos == Some(k) && after.next_called
            } else {
                r is None
            }
        }),
{
    let c = cursor::unplaced();
    match start {
        BoundView::Unbounded => 0,
        BoundView::Included(key) => {
            cursor::law_range_starts_at_its_bound(l, c, key, false);
            let (r, after) = cursor::range_step(l, c, start, BoundView::Unbounded);
            match r {
                Some(data) => choose|k: int|
                    0 <= k < l.len() && #[trigger] l[k] == data && after.pos == Some(k),
                None => l.len() as int,
            }
        },
        BoundView::Excluded(key) => {
            cursor::law_range_starts_at_its_bound(l, c, key, true);
            let (r, after) = cursor::range_step(l, c, start, BoundView::Unbounded);
            match r {
                Some(data) => choose|k: int|
                    0 <= k < l.len() && #[trigger] l[k] == data && after.pos == Some(k),
                None => l.len() as int,
            }
        },
    }
}

/// A range gives every entry whose key lies within its bounds, each once and in
/// key order, and no other.
pub proof fn law_range_gives_what_is_within(
    l: Seq<DataView>,
    start: BoundView,
    end: BoundView,
    n: nat,
)
    requires
        cursor::in_order(l),
        n > l.len(),
    ensures
        ({
            let s = given(l, cursor::unplaced(), start, end, n);
            &&& forall|d: DataView| #[trigger]
                s.contains(d) <==> l.contains(d) && read::within_bounds(start, end, d.key())
            &&& forall|i: int, j: int|
                0 <= i < j < s.len() ==> bytes::lex_lt(
                    (#[trigger] s[i]).key(),
                    (#[trigger] s[j]).key(),
                )
        }),
{
    let c = cursor::unplaced();
    let s = given(l, c, start, end, n);
    let k = lemma_begins(l, start, end);
    let mut e: int = k;
    if k < l.len() && reached(end, l[k]) {
        let after = cursor::range_step(l, c, start, end).1;
        e = lemma_given_on(l, after, k, start, end, (n - 1) as nat);
        assert(s =~= l.subrange(k, e));
    } else {
        assert(s =~= l.subrange(k, k));
    }
    assert forall|i: int| 0 <= i < l.len() implies (read::within_bounds(
        start,
        end,
        (#[trigger] l[i]).key(),
    ) <==> k <= i < e) by {
        if i < k {
            assert(!read::within_bounds(start, BoundView::Unbounded, l[i].key()));
        } else {
            if k < i {
                lemma_begun(start, l[k].key(), l[i].key());
            }
            if i < e {
                assert(reached(end, l[i]));
            } else {
                assert(!reached(end, l[e]));
                if e < i {
                    lemma_beyond(end, l[e].key(), l[i].key());
                }
            }
        }
    }
    assert forall|d: DataView| #[trigger] s.contains(d) <==> l.contains(d) && read::within_bounds(
        start,
        end,
        d.key(),
    ) by {
        if s.contains(d) {
            let i = choose|i: int| 0 <= i < s.len() && s[i] == d;
            assert(l[k + i] == d);
        }
        if l.contains(d) && read::within_bounds(start, end, d.key()) {
            let i = choose|i: int| 0 <= i < l.len() && l[i] == d;
            assert(s[i - k] == d);
        }
    }
    assert forall|i: int, j: int| 0 <= i < j < s.len() implies bytes::lex_lt(
        (#[trigger] s[i]).key(),
        (#[trigger] s[j]).key(),
    ) by {
        assert(bytes::lex_lt(l[k + i].key(), l[k + j].key()));
    }
}

/// A search tells whether a key is there, and leaves the cursor at it, or at an
/// entry next to where it belongs.
pub proof fn law_search_tells(l: Seq<DataView>, key: Seq<u8>)
    requires
        cursor::in_order(l),
    ensures
        ({
            let (found, at) = cursor::sought(l, key);
            &&& found <==> exists|i: int| 0 <= i < l.len() && (#[trigger] l[i]).key() == key
            &&& found ==> (cursor::current(l, at) matches Some(d) && d.key() == key)
            &&& cursor::current(l, at) matches Some(d) ==> forall|i: int|
                0 <= i < l.len() && bytes::lex_lt((#[trigger] l[i]).key(), key) ==> bytes::lex_le(
                    l[i].key(),
                    d.key(),
                )
        }),
{
    cursor::lemma_rank_bounds(l, key);
    let r = cursor::rank(l, key) as int;
    if cursor::holds_key(l, key) {
        let j = choose|j: int| 0 <= j < l.len() && (#[trigger] l[j]).key() == key;
        bytes::lemma_lex_irreflexive(key);
        assert(r <= j);
        if r < j {
            assert(bytes::lex_lt(l[r].key(), l[j].key()));
        }
        assert(l[r].key() == key);
    } else {
        assert forall|i: int|
            0 <= i < l.len() && bytes::lex_lt((#[trigger] l[i]).key(), key) && r > 0 implies bytes::lex_le(
            l[i].key(),
            l[r - 1].key(),
        ) by {
            bytes::lemma_lex_total(l[i].key(), key);
            assert(i < r);
            if i < r - 1 {
                assert(bytes::lex_lt(l[i].key(), l[r - 1].key()));
            }
        }
    }
}

} // verus!
