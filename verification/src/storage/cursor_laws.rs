//! What holds of a cursor over pages that are in order: it comes upon every
//! entry below the root, one after the other.

use crate::api::cursor as index;
use crate::bytes;
use crate::data::DataView;
use crate::error::Error;
use crate::storage::cursor::{self, Descent, Moved, PageCursorView, SearchPath, Source};
use vstd::prelude::*;

verus! {

/// The block of a page.
pub open spec fn node(src: Source, id: u64) -> Seq<u8> {
    cursor::node_of(src, id)->Ok_0
}

/// Whether a page, and all that it leads to, can be read, and none of them is
/// empty; at most `depth` pages below one another.
pub open spec fn whole(src: Source, id: u64, depth: nat) -> bool
    decreases depth,
{
    &&& depth > 0
    &&& cursor::node_of(src, id) is Ok
    &&& 0 < cursor::count_of(node(src, id)) <= usize::MAX
    &&& !cursor::is_leaf(node(src, id)) ==> forall|i: int|
        0 <= i < cursor::count_of(node(src, id)) ==> whole(
            src,
            #[trigger] cursor::child_at(node(src, id), i),
            (depth - 1) as nat,
        )
}

/// The entries below the first `n` elements of a page, in order.
pub open spec fn upto(src: Source, id: u64, depth: nat, n: int) -> Seq<DataView>
    decreases depth, n,
{
    if depth == 0 || n <= 0 {
        Seq::empty()
    } else if cursor::is_leaf(node(src, id)) {
        Seq::new(n as nat, |i: int| cursor::data_at(node(src, id), i))
    } else {
        let c = cursor::child_at(node(src, id), n - 1);
        upto(src, id, depth, n - 1) + upto(src, c, (depth - 1) as nat, cursor::count_of(node(src, c)))
    }
}

/// The entries below a page, in order.
pub open spec fn entries(src: Source, id: u64, depth: nat) -> Seq<DataView> {
    upto(src, id, depth, cursor::count_of(node(src, id)))
}

/// Whether a way leads from a page to an entry below it.
pub open spec fn leads(src: Source, id: u64, depth: nat, way: Seq<SearchPath>) -> bool
    decreases depth,
{
    &&& depth > 0
    &&& way.len() > 0
    &&& way[0].id == id
    &&& way[0].index < cursor::count_of(node(src, id))
    &&& if cursor::is_leaf(node(src, id)) {
        way.len() == 1
    } else {
        leads(
            src,
            cursor::child_at(node(src, id), way[0].index as int),
            (depth - 1) as nat,
            way.drop_first(),
        )
    }
}

/// Which of the entries below a page a way leads to.
pub open spec fn offset(src: Source, id: u64, depth: nat, way: Seq<SearchPath>) -> int
    decreases depth,
{
    if depth == 0 {
        0
    } else if cursor::is_leaf(node(src, id)) {
        way[0].index as int
    } else {
        let b = node(src, id);
        upto(src, id, depth, way[0].index as int).len() + offset(
            src,
            cursor::child_at(b, way[0].index as int),
            (depth - 1) as nat,
            way.drop_first(),
        )
    }
}

/// Where the entries below one element of a branch stand among all.
proof fn lemma_part(src: Source, id: u64, depth: nat, i: int, n: int)
    requires
        depth > 0,
        !cursor::is_leaf(node(src, id)),
        0 <= i < n,
    ensures
        ({
            let before = upto(src, id, depth, i);
            let all = upto(src, id, depth, n);
            let part = entries(src, cursor::child_at(node(src, id), i), (depth - 1) as nat);
            &&& before.len() + part.len() <= all.len()
            &&& upto(src, id, depth, i + 1) == before + part
            &&& part == all.subrange(before.len() as int, (before.len() + part.len()) as int)
        }),
    decreases n,
{
    let before = upto(src, id, depth, i);
    let all = upto(src, id, depth, n);
    let part = entries(src, cursor::child_at(node(src, id), i), (depth - 1) as nat);
    if i < n - 1 {
        lemma_part(src, id, depth, i, n - 1);
        let less = upto(src, id, depth, n - 1);
        assert(part =~= all.subrange(before.len() as int, (before.len() + part.len()) as int)) by {
            assert forall|k: int| 0 <= k < part.len() implies part[k] == all.subrange(
                before.len() as int,
                (before.len() + part.len()) as int,
            )[k] by {
                assert(part[k] == less.subrange(
                    before.len() as int,
                    (before.len() + part.len()) as int,
                )[k]);
            }
        }
    } else {
        assert(part =~= all.subrange(before.len() as int, (before.len() + part.len()) as int));
    }
}

/// There is an entry below every page that is whole.
proof fn lemma_some_entry(src: Source, id: u64, depth: nat)
    requires
        whole(src, id, depth),
    ensures
        entries(src, id, depth).len() > 0,
    decreases depth,
{
    if !cursor::is_leaf(node(src, id)) {
        let b = node(src, id);
        assert(whole(src, cursor::child_at(b, 0), (depth - 1) as nat));
        lemma_some_entry(src, cursor::child_at(b, 0), (depth - 1) as nat);
        lemma_part(src, id, depth, 0, cursor::count_of(b));
    }
}

/// What a way leads to is the entry at its end.
pub proof fn law_way_leads_to_its_entry(src: Source, id: u64, depth: nat, way: Seq<SearchPath>)
    requires
        whole(src, id, depth),
        leads(src, id, depth, way),
    ensures
        0 <= offset(src, id, depth, way) < entries(src, id, depth).len(),
        cursor::entry_at(src, way) == Ok::<Option<DataView>, Error>(
            Some(entries(src, id, depth)[offset(src, id, depth, way)]),
        ),
    decreases depth,
{
    let b = node(src, id);
    if cursor::is_leaf(b) {
        assert(way.last() == way[0]);
    } else {
        let i = way[0].index as int;
        let below = (depth - 1) as nat;
        let rest = way.drop_first();
        assert(whole(src, cursor::child_at(b, i), below));
        law_way_leads_to_its_entry(src, cursor::child_at(b, i), below, rest);
        lemma_part(src, id, depth, i, cursor::count_of(b));
        assert(rest.last() == way.last());
        let k = offset(src, cursor::child_at(b, i), below, rest);
        let part = entries(src, cursor::child_at(b, i), below);
        let start = upto(src, id, depth, i).len() as int;
        assert(part[k] == entries(src, id, depth).subrange(start, start + part.len())[k]);
    }
}

/// The way down to the first entry below a page.
proof fn lemma_first(src: Source, prefix: Seq<SearchPath>, id: u64, depth: nat) -> (way: Seq<
    SearchPath,
>)
    requires
        whole(src, id, depth),
        prefix.len() + depth <= src.buf.len(),
    ensures
        cursor::first_below(src, prefix.push(SearchPath { index: 0, id })) == (
            None::<Error>,
            prefix + way,
        ),
        leads(src, id, depth, way),
        offset(src, id, depth, way) == 0,
    decreases depth,
{
    let b = node(src, id);
    let top = SearchPath { index: 0, id };
    let stack = prefix.push(top);
    if cursor::is_leaf(b) {
        let way = seq![top];
        assert(prefix + way =~= stack);
        way
    } else {
        assert(whole(src, cursor::child_at(b, 0), (depth - 1) as nat));
        let rest = lemma_first(src, stack, cursor::child_at(b, 0), (depth - 1) as nat);
        let way = seq![top] + rest;
        assert(prefix + way =~= stack + rest);
        assert(way.drop_first() =~= rest);
        way
    }
}

/// The way down to the last entry below a page.
proof fn lemma_last(src: Source, prefix: Seq<SearchPath>, id: u64, depth: nat) -> (way: Seq<
    SearchPath,
>)
    requires
        whole(src, id, depth),
        prefix.len() + depth <= src.buf.len(),
    ensures
        cursor::last_below(src, prefix, id) == (Descent::Leaf, prefix + way),
        leads(src, id, depth, way),
        offset(src, id, depth, way) == entries(src, id, depth).len() - 1,
    decreases depth,
{
    let b = node(src, id);
    let i = cursor::count_of(b) - 1;
    let top = SearchPath { index: i as usize, id };
    let stack = prefix.push(top);
    if cursor::is_leaf(b) {
        let way = seq![top];
        assert(prefix + way =~= stack);
        way
    } else {
        assert(whole(src, cursor::child_at(b, i), (depth - 1) as nat));
        let rest = lemma_last(src, stack, cursor::child_at(b, i), (depth - 1) as nat);
        let way = seq![top] + rest;
        assert(prefix + way =~= stack + rest);
        assert(way.drop_first() =~= rest);
        lemma_part(src, id, depth, i, cursor::count_of(b));
        way
    }
}

/// The way to the entry after the one that a way leads to; past the last, what
/// is left of the way is what stands before the page.
#[verifier::rlimit(30)]
#[verifier::spinoff_prover]
proof fn lemma_on(
    src: Source,
    prefix: Seq<SearchPath>,
    id: u64,
    depth: nat,
    way: Seq<SearchPath>,
) -> (next: Seq<SearchPath>)
    requires
        whole(src, id, depth),
        prefix.len() + depth <= src.buf.len(),
        leads(src, id, depth, way),
    ensures
        if offset(src, id, depth, way) + 1 < entries(src, id, depth).len() {
            &&& cursor::stepped_on(src, prefix + way) == (Moved::Yes, prefix + next)
            &&& leads(src, id, depth, next)
            &&& offset(src, id, depth, next) == offset(src, id, depth, way) + 1
        } else if prefix.len() > 0 {
            cursor::stepped_on(src, prefix + way) == cursor::stepped_on(src, prefix)
        } else {
            cursor::stepped_on(src, prefix + way) == (Moved::No, way.take(1))
        },
    decreases depth,
{
    let b = node(src, id);
    let top = way[0];
    let i = top.index as int;
    let stack = prefix + way;
    if cursor::is_leaf(b) {
        assert(stack.last() == top);
        assert(stack.drop_last() =~= prefix);
        assert(way.take(1) =~= way);
        if prefix.len() == 0 {
            assert(stack =~= way);
        }
        let other = SearchPath { index: (i + 1) as usize, id };
        let next = seq![other];
        assert(cursor::redirected(stack, i + 1) =~= prefix + next);
        assert((prefix + next).last() == other);
        next
    } else {
        let below = (depth - 1) as nat;
        let c = cursor::child_at(b, i);
        let rest = way.drop_first();
        let deeper = prefix.push(top);
        assert(whole(src, c, below));
        law_way_leads_to_its_entry(src, c, below, rest);
        lemma_part(src, id, depth, i, cursor::count_of(b));
        assert(deeper + rest =~= stack);
        let found = lemma_on(src, deeper, c, below, rest);
        if offset(src, c, below, rest) + 1 < entries(src, c, below).len() {
            let next = seq![top] + found;
            assert(next.drop_first() =~= found);
            assert(prefix + next =~= deeper + found);
            next
        } else {
            assert(cursor::stepped_on(src, stack) == cursor::stepped_on(src, deeper));
            assert(deeper.last() == top);
            assert(deeper.drop_last() =~= prefix);
            if i + 1 < cursor::count_of(b) {
                let other = SearchPath { index: (i + 1) as usize, id };
                let turned = prefix.push(other);
                assert(cursor::redirected(deeper, i + 1) =~= turned);
                assert(whole(src, cursor::child_at(b, i + 1), below));
                let first = lemma_first(src, turned, cursor::child_at(b, i + 1), below);
                let next = seq![other] + first;
                assert(next.drop_first() =~= first);
                assert(prefix + next =~= turned + first);
                lemma_some_entry(src, cursor::child_at(b, i + 1), below);
                lemma_part(src, id, depth, i + 1, cursor::count_of(b));
                next
            } else {
                if prefix.len() == 0 {
                    assert(deeper =~= way.take(1));
                }
                way
            }
        }
    }
}

/// The way to the entry before the one that a way leads to; before the first,
/// what is left of the way is what stands before the page.
#[verifier::rlimit(30)]
#[verifier::spinoff_prover]
proof fn lemma_back(
    src: Source,
    prefix: Seq<SearchPath>,
    id: u64,
    depth: nat,
    way: Seq<SearchPath>,
) -> (next: Seq<SearchPath>)
    requires
        whole(src, id, depth),
        prefix.len() + depth <= src.buf.len(),
        leads(src, id, depth, way),
    ensures
        if offset(src, id, depth, way) > 0 {
            &&& cursor::stepped_back(src, prefix + way) == (Moved::Yes, prefix + next)
            &&& leads(src, id, depth, next)
            &&& offset(src, id, depth, next) == offset(src, id, depth, way) - 1
        } else {
            cursor::stepped_back(src, prefix + way) == cursor::stepped_back(src, prefix)
        },
    decreases depth,
{
    let b = node(src, id);
    let top = way[0];
    let i = top.index as int;
    let stack = prefix + way;
    if cursor::is_leaf(b) {
        assert(stack.last() == top);
        assert(stack.drop_last() =~= prefix);
        let other = SearchPath { index: (i - 1) as usize, id };
        let next = seq![other];
        assert(cursor::redirected(stack, i - 1) =~= prefix + next);
        next
    } else {
        let below = (depth - 1) as nat;
        let c = cursor::child_at(b, i);
        let rest = way.drop_first();
        let deeper = prefix.push(top);
        assert(whole(src, c, below));
        assert(deeper + rest =~= stack);
        law_way_leads_to_its_entry(src, c, below, rest);
        let found = lemma_back(src, deeper, c, below, rest);
        if offset(src, c, below, rest) > 0 {
            let next = seq![top] + found;
            assert(next.drop_first() =~= found);
            assert(prefix + next =~= deeper + found);
            next
        } else {
            assert(deeper.last() == top);
            assert(deeper.drop_last() =~= prefix);
            if i > 0 {
                let other = SearchPath { index: (i - 1) as usize, id };
                let turned = prefix.push(other);
                assert(cursor::redirected(deeper, i - 1) =~= turned);
                assert(whole(src, cursor::child_at(b, i - 1), below));
                let last = lemma_last(src, turned, cursor::child_at(b, i - 1), below);
                let next = seq![other] + last;
                assert(next.drop_first() =~= last);
                assert(prefix + next =~= turned + last);
                lemma_some_entry(src, cursor::child_at(b, i - 1), below);
                lemma_part(src, id, depth, i - 1, cursor::count_of(b));
                next
            } else {
                way
            }
        }
    }
}

/// Whether a cursor stands at an entry of a bucket whose pages are whole.
pub open spec fn stands(src: Source, root: u64, depth: nat, c: PageCursorView) -> bool {
    &&& whole(src, root, depth)
    &&& depth <= src.buf.len()
    &&& leads(src, root, depth, c.stack)
}

/// A cursor that was not placed starts at the first entry when it is moved on,
/// and at the last one when it is moved back.
pub proof fn law_cursor_starts_at_either_end(src: Source, root: u64, depth: nat, c: PageCursorView)
    requires
        whole(src, root, depth),
        depth <= src.buf.len(),
        c.stack.len() == 0,
    ensures
        ({
            let l = entries(src, root, depth);
            let (on, ahead) = cursor::moved_on(src, root, c);
            let (back, behind) = cursor::moved_back(src, root, c);
            &&& l.len() > 0
            &&& on == Ok::<Option<DataView>, Error>(Some(l[0]))
            &&& stands(src, root, depth, ahead)
            &&& offset(src, root, depth, ahead.stack) == 0
            &&& ahead.next_called
            &&& back == Ok::<Option<DataView>, Error>(Some(l.last()))
            &&& stands(src, root, depth, behind)
            &&& offset(src, root, depth, behind.stack) == l.len() - 1
            &&& behind.previous_called
        }),
{
    let none = Seq::<SearchPath>::empty();
    lemma_some_entry(src, root, depth);
    let first = lemma_first(src, none, root, depth);
    assert(none.push(SearchPath { index: 0, id: root }) =~= seq![
        SearchPath { index: 0, id: root },
    ]);
    assert(none + first =~= first);
    law_way_leads_to_its_entry(src, root, depth, first);
    let last = lemma_last(src, none, root, depth);
    assert(none + last =~= last);
    law_way_leads_to_its_entry(src, root, depth, last);
}

/// A cursor that has moved on comes upon the next entry when it is moved on
/// again, and upon nothing past the last one.
pub proof fn law_cursor_moves_on(src: Source, root: u64, depth: nat, c: PageCursorView)
    requires
        stands(src, root, depth, c),
        c.next_called,
    ensures
        ({
            let l = entries(src, root, depth);
            let p = offset(src, root, depth, c.stack);
            let (r, after) = cursor::moved_on(src, root, c);
            &&& 0 <= p < l.len()
            &&& if p + 1 < l.len() {
                &&& r == Ok::<Option<DataView>, Error>(Some(l[p + 1]))
                &&& stands(src, root, depth, after)
                &&& offset(src, root, depth, after.stack) == p + 1
                &&& after.next_called
            } else {
                r == Ok::<Option<DataView>, Error>(None)
            }
        }),
{
    let none = Seq::<SearchPath>::empty();
    law_way_leads_to_its_entry(src, root, depth, c.stack);
    let next = lemma_on(src, none, root, depth, c.stack);
    assert(none + c.stack =~= c.stack);
    assert(none + next =~= next);
    if offset(src, root, depth, c.stack) + 1 < entries(src, root, depth).len() {
        law_way_leads_to_its_entry(src, root, depth, next);
    }
}

/// A cursor that has moved back comes upon the entry before when it is moved
/// back again, and upon nothing before the first one, where it is no longer
/// placed.
pub proof fn law_cursor_moves_back(src: Source, root: u64, depth: nat, c: PageCursorView)
    requires
        stands(src, root, depth, c),
        c.previous_called,
    ensures
        ({
            let l = entries(src, root, depth);
            let p = offset(src, root, depth, c.stack);
            let (r, after) = cursor::moved_back(src, root, c);
            &&& 0 <= p < l.len()
            &&& if p > 0 {
                &&& r == Ok::<Option<DataView>, Error>(Some(l[p - 1]))
                &&& stands(src, root, depth, after)
                &&& offset(src, root, depth, after.stack) == p - 1
                &&& after.previous_called
            } else {
                r == Ok::<Option<DataView>, Error>(None) && after.stack.len() == 0
            }
        }),
{
    let none = Seq::<SearchPath>::empty();
    law_way_leads_to_its_entry(src, root, depth, c.stack);
    let next = lemma_back(src, none, root, depth, c.stack);
    assert(none + c.stack =~= c.stack);
    assert(none + next =~= next);
    if offset(src, root, depth, c.stack) > 0 {
        law_way_leads_to_its_entry(src, root, depth, next);
    }
}

/// Whether a page that is whole is also in order: keys ascend, and a branch
/// knows the first key below each of its elements but the first.
pub open spec fn ordered(src: Source, id: u64, depth: nat) -> bool
    decreases depth,
{
    &&& depth > 0
    &&& index::in_order(entries(src, id, depth))
    &&& !cursor::is_leaf(node(src, id)) ==> {
        &&& forall|i: int, j: int|
            0 <= i < j < cursor::count_of(node(src, id)) ==> bytes::lex_lt(
                #[trigger] cursor::key_at(node(src, id), i),
                #[trigger] cursor::key_at(node(src, id), j),
            )
        &&& forall|i: int|
            0 <= i < cursor::count_of(node(src, id)) ==> (#[trigger] cursor::child_at(node(src, id), i)) != 0
                && ordered(src, cursor::child_at(node(src, id), i), (depth - 1) as nat) && (i > 0
                ==> cursor::key_at(node(src, id), i) == entries(
                src,
                cursor::child_at(node(src, id), i),
                (depth - 1) as nat,
            )[0].key())
    }
}

proof fn lemma_smaller_in_sorted(b: Seq<u8>, key: Seq<u8>, n: int)
    requires
        0 <= n <= cursor::count_of(b),
        forall|i: int, j: int|
            0 <= i < j < cursor::count_of(b) ==> bytes::lex_lt(
                #[trigger] cursor::key_at(b, i),
                #[trigger] cursor::key_at(b, j),
            ),
    ensures
        0 <= cursor::smaller_in(b, key, n) <= n,
        forall|i: int|
            0 <= i < cursor::smaller_in(b, key, n) ==> bytes::lex_lt(#[trigger] cursor::key_at(b, i), key),
        forall|i: int|
            cursor::smaller_in(b, key, n) <= i < n ==> !bytes::lex_lt(
                #[trigger] cursor::key_at(b, i),
                key,
            ),
    decreases n,
{
    if n > 0 {
        lemma_smaller_in_sorted(b, key, n - 1);
        let before = cursor::smaller_in(b, key, n - 1);
        if before < n - 1 {
            assert(!bytes::lex_lt(cursor::key_at(b, before), key));
            if bytes::lex_lt(cursor::key_at(b, n - 1), key) {
                assert(bytes::lex_lt(cursor::key_at(b, before), cursor::key_at(b, n - 1)));
                bytes::lemma_lex_transitive(cursor::key_at(b, before), cursor::key_at(b, n - 1), key);
            }
        }
    }
}

/// Where a search stops in a list.
pub open spec fn stop_at(l: Seq<DataView>, key: Seq<u8>) -> int {
    index::sought(l, key).1.pos->Some_0
}

/// Where a search stops is where it stops in the part that may hold the key.
proof fn lemma_sought_part(l: Seq<DataView>, m: Seq<DataView>, at: int, key: Seq<u8>)
    requires
        index::in_order(l),
        0 <= at,
        at + m.len() <= l.len(),
        m == l.subrange(at, at + m.len()),
        m.len() > 0,
        at > 0 ==> bytes::lex_le(m[0].key(), key),
        at + m.len() < l.len() ==> bytes::lex_lt(key, l[at + m.len()].key()),
    ensures
        index::in_order(m),
        index::holds_key(l, key) == index::holds_key(m, key),
        stop_at(l, key) == at + stop_at(m, key),
{
    assert forall|i: int, j: int| 0 <= i < j < m.len() implies bytes::lex_lt(
        (#[trigger] m[i]).key(),
        (#[trigger] m[j]).key(),
    ) by {
        assert(bytes::lex_lt(l[at + i].key(), l[at + j].key()));
    }
    index::lemma_rank_bounds(m, key);
    let r = index::rank(m, key) as int;
    let end = at + m.len();
    bytes::lemma_lex_irreflexive(key);
    assert forall|j: int| 0 <= j < at + r implies bytes::lex_lt((#[trigger] l[j]).key(), key) by {
        if j < at {
            assert(bytes::lex_lt(l[j].key(), l[at].key()));
            assert(l[at] == m[0]);
            if m[0].key() != key {
                bytes::lemma_lex_transitive(l[j].key(), l[at].key(), key);
            }
        } else {
            assert(l[j] == m[j - at]);
        }
    }
    assert forall|j: int| at + r <= j < l.len() implies !bytes::lex_lt(
        (#[trigger] l[j]).key(),
        key,
    ) by {
        if j < end {
            assert(l[j] == m[j - at]);
        } else {
            if j > end {
                assert(bytes::lex_lt(l[end].key(), l[j].key()));
                bytes::lemma_lex_transitive(key, l[end].key(), l[j].key());
            }
            bytes::lemma_lex_total(key, l[j].key());
        }
    }
    index::lemma_rank(l, key, at + r);
    if index::holds_key(m, key) {
        let i = choose|i: int| 0 <= i < m.len() && (#[trigger] m[i]).key() == key;
        assert(l[at + i].key() == key);
    }
    if index::holds_key(l, key) {
        let j = choose|j: int| 0 <= j < l.len() && (#[trigger] l[j]).key() == key;
        assert(!bytes::lex_lt(l[j].key(), key));
        assert(j >= at + r);
        if j >= end {
            if j > end {
                assert(bytes::lex_lt(l[end].key(), l[j].key()));
                bytes::lemma_lex_transitive(key, l[end].key(), l[j].key());
            }
            assert(false);
        }
        assert(m[j - at].key() == key);
    }
    if at > 0 && !index::holds_key(m, key) {
        assert(m[0].key() != key);
        assert(bytes::lex_lt(m[0].key(), key));
        assert(r > 0);
    }
}

/// The way that a search takes from a page on.
#[verifier::rlimit(40)]
#[verifier::spinoff_prover]
proof fn lemma_search(src: Source, prefix: Seq<SearchPath>, id: u64, depth: nat, key: Seq<u8>) -> (
    way: Seq<SearchPath>)
    requires
        whole(src, id, depth),
        ordered(src, id, depth),
        prefix.len() + depth <= src.buf.len(),
    ensures
        cursor::searched(src, prefix, id, key) == (
            Ok::<bool, Error>(index::holds_key(entries(src, id, depth), key)),
            prefix + way,
        ),
        leads(src, id, depth, way),
        offset(src, id, depth, way) == stop_at(entries(src, id, depth), key),
    decreases depth,
{
    let b = node(src, id);
    let l = entries(src, id, depth);
    let n = cursor::count_of(b);
    let i = cursor::smaller_in(b, key, n);
    let (at, exact) = cursor::index_of(b, key);
    let top = SearchPath { index: at as usize, id };
    let stack = prefix.push(top);
    if cursor::is_leaf(b) {
        assert forall|x: int, y: int| 0 <= x < y < n implies bytes::lex_lt(
            #[trigger] cursor::key_at(b, x),
            #[trigger] cursor::key_at(b, y),
        ) by {
            assert(l[x].key() == cursor::key_at(b, x));
            assert(l[y].key() == cursor::key_at(b, y));
            assert(bytes::lex_lt(l[x].key(), l[y].key()));
        }
        lemma_smaller_in_sorted(b, key, n);
        assert forall|j: int| 0 <= j < i implies bytes::lex_lt((#[trigger] l[j]).key(), key) by {
            assert(l[j].key() == cursor::key_at(b, j));
        }
        assert forall|j: int| i <= j < l.len() implies !bytes::lex_lt(
            (#[trigger] l[j]).key(),
            key,
        ) by {
            assert(l[j].key() == cursor::key_at(b, j));
        }
        index::lemma_rank(l, key, i);
        bytes::lemma_lex_irreflexive(key);
        if index::holds_key(l, key) {
            let j = choose|j: int| 0 <= j < l.len() && (#[trigger] l[j]).key() == key;
            assert(j >= i);
            if j > i {
                assert(bytes::lex_lt(l[i].key(), l[j].key()));
            }
            assert(l[i].key() == cursor::key_at(b, i));
        } else if i < n {
            assert(l[i].key() == cursor::key_at(b, i));
        }
        let way = seq![top];
        assert(prefix + way =~= stack);
        way
    } else {
        lemma_smaller_in_sorted(b, key, n);
        let below = (depth - 1) as nat;
        let c = cursor::child_at(b, at);
        assert(whole(src, c, below));
        assert(c != 0 && ordered(src, c, below));
        let rest = lemma_search(src, stack, c, below, key);
        let way = seq![top] + rest;
        assert(way.drop_first() =~= rest);
        assert(prefix + way =~= stack + rest);
        let m = entries(src, c, below);
        let start = upto(src, id, depth, at).len() as int;
        lemma_part(src, id, depth, at, n);
        lemma_some_entry(src, c, below);
        if start > 0 {
            assert(at > 0);
            assert(cursor::key_at(b, at) == m[0].key());
            if !exact {
                assert(bytes::lex_lt(cursor::key_at(b, at), key));
            }
        }
        if start + m.len() < l.len() {
            assert(at + 1 < n);
            let d = cursor::child_at(b, at + 1);
            let after = entries(src, d, below);
            assert(whole(src, d, below));
            lemma_some_entry(src, d, below);
            lemma_part(src, id, depth, at + 1, n);
            assert(after[0] == l[start + m.len()]);
            assert(d != 0 && cursor::key_at(b, at + 1) == after[0].key());
            if exact {
                assert(bytes::lex_lt(cursor::key_at(b, at), cursor::key_at(b, at + 1)));
            } else {
                bytes::lemma_lex_total(key, cursor::key_at(b, at + 1));
                if cursor::key_at(b, at + 1) == key {
                    assert(i == at + 1);
                }
            }
        }
        lemma_sought_part(l, m, start, key);
        way
    }
}

/// A cursor that is moved to a key stands at the entry with that key, or at
/// the one just before, or at the first; and it is told whether the key is
/// there.
pub proof fn law_seek_finds_the_key(src: Source, root: u64, depth: nat, key: Seq<u8>)
    requires
        whole(src, root, depth),
        ordered(src, root, depth),
        depth <= src.buf.len(),
    ensures
        ({
            let l = entries(src, root, depth);
            let (r, way) = cursor::searched(src, Seq::empty(), root, key);
            let (exists, at) = index::sought(l, key);
            &&& r == Ok::<bool, Error>(exists)
            &&& leads(src, root, depth, way)
            &&& at == index::placed(offset(src, root, depth, way))
        }),
{
    let none = Seq::<SearchPath>::empty();
    let way = lemma_search(src, none, root, depth, key);
    assert(none + way =~= way);
}

} // verus!
