//! What holds of typed collections.

use crate::api::bucket::{self, Space};
use crate::api::cursor::{self, CursorView};
use crate::api::names;
use crate::api::tree::{self, Tree};
use crate::api::ttl;
use crate::api::ttl_laws;
use crate::application::collection;
use crate::application::iter::{self, Found, Scan};
use crate::application::writing;
use crate::bytes;
use crate::data::DataView;
use crate::error::Error;
use vstd::prelude::*;

verus! {

/// A value that was stored is the live one under its key: until its deadline,
/// if it was given one, and always otherwise.
pub proof fn law_inserted_value_is_live(
    s: Space,
    path: Seq<Seq<u8>>,
    key: Seq<u8>,
    value: Seq<u8>,
    deadline: Option<u64>,
    now: u64,
)
    requires
        writing::inserted(s, path, key, value, deadline).0 is Ok,
        !names::about_ttl(key),
    ensures
        ({
            let t = writing::inserted(s, path, key, value, deadline).1.tree;
            let expired = deadline matches Some(d) && d <= now;
            ttl::live(t, key, now) == Ok::<Option<Seq<u8>>, Error>(
                if expired {
                    None
                } else {
                    Some(value)
                },
            )
        }),
{
    names::law_names_differ();
    match deadline {
        Some(d) => ttl_laws::law_value_lives_until_its_deadline(s, path, key, value, d, now),
        None => {
            let stored = bucket::put(s, path, key, value).1.tree;
            let after = ttl::without_expiration(stored, key).1;
            assert(tree::value_of(after, key) == Some(value));
        },
    }
}

/// A value that was taken out is there no more, and its key has no deadline.
pub proof fn law_removed_value_is_gone(s: Space, path: Seq<Seq<u8>>, key: Seq<u8>, now: u64)
    requires
        ttl::removed(s, path, key).0 is Ok,
        !names::about_ttl(key),
    ensures
        ({
            let t = ttl::removed(s, path, key).1.tree;
            &&& tree::value_of(t, key) is None
            &&& ttl::live(t, key, now) == Ok::<Option<Seq<u8>>, Error>(None)
        }),
{
    names::law_names_differ();
    let gone = bucket::delete(s, path, key).1.tree;
    let after = ttl::without_expiration(gone, key).1;
    assert(tree::value_of(after, key) is None);
}

/// Whether a traversal passes over an entry.
pub open spec fn passed_over(
    d: DataView,
    q: Scan,
    table: Result<Option<Tree>, Error>,
    now: u64,
) -> bool {
    match d {
        DataView::Bucket(_) => true,
        DataView::KeyValue(key, _) => !iter::beyond(q, key) && (table matches Ok(Some(t))
            && iter::lives(t, key, now) == Ok::<bool, Error>(false)),
    }
}

/// Whether a traversal that has passed over `n` entries is right to end, or to
/// hand out the next.
pub open spec fn rightly_found(
    s: Seq<DataView>,
    n: int,
    q: Scan,
    table: Result<Option<Tree>, Error>,
    now: u64,
    next: Found,
) -> bool {
    &&& 0 <= n <= s.len()
    &&& forall|i: int| 0 <= i < n ==> passed_over(#[trigger] s[i], q, table, now)
    &&& match next {
        Found::End => n == s.len() || (s[n] is KeyValue && iter::beyond(q, s[n].key())),
        Found::Pair(key, value) => {
            &&& n < s.len()
            &&& s[n] == DataView::KeyValue(key, value)
            &&& !iter::beyond(q, key)
            &&& table is Ok
            &&& table->Ok_0 matches Some(t) ==> iter::lives(t, key, now) == Ok::<bool, Error>(true)
        },
        Found::Fault(e) => {
            &&& n < s.len()
            &&& s[n] is KeyValue
            &&& !iter::beyond(q, s[n].key())
            &&& table matches Ok(Some(t)) && iter::lives(t, s[n].key(), now) == Err::<bool, Error>(
                e,
            )
        },
        Found::Broken(e) => {
            &&& n < s.len()
            &&& s[n] is KeyValue
            &&& !iter::beyond(q, s[n].key())
            &&& table == Err::<Option<Tree>, Error>(e)
        },
    }
}

/// A traversal toward larger keys comes upon the nearest live pair ahead of
/// it, and has then what lies behind that pair still ahead.
pub proof fn law_traversal_finds_nearest_live_pair(
    l: Seq<DataView>,
    c: CursorView,
    q: Scan,
    table: Result<Option<Tree>, Error>,
    now: u64,
) -> (n: int)
    requires
        cursor::sound(l, c),
        !q.reverse,
    ensures
        rightly_found(cursor::ahead(l, c), n, q, table, now, iter::found(l, c, q, table, now).0),
        iter::found(l, c, q, table, now).0 is Pair ==> cursor::ahead(
            l,
            iter::found(l, c, q, table, now).1,
        ) == cursor::ahead(l, c).skip(n + 1),
    decreases cursor::ahead(l, c).len(),
{
    let s = cursor::ahead(l, c);
    let (data, after) = iter::moved(l, c, false);
    iter::lemma_moved(l, c, false);
    cursor::law_cursor_returns_what_is_ahead(l, c);
    if s.len() == 0 {
        0
    } else {
        assert(data == Some(s[0]));
        assert(s.drop_first() =~= s.skip(1));
        if passed_over(s[0], q, table, now) {
            let m = law_traversal_finds_nearest_live_pair(l, after, q, table, now);
            let rest = cursor::ahead(l, after);
            assert forall|i: int| 0 <= i < m + 1 implies passed_over(
                #[trigger] s[i],
                q,
                table,
                now,
            ) by {
                if i > 0 {
                    assert(s[i] == rest[i - 1]);
                }
            }
            if m < rest.len() {
                assert(s[m + 1] == rest[m]);
                assert(rest.skip(m + 1) =~= s.skip(m + 2));
            }
            m + 1
        } else {
            0
        }
    }
}

/// A traversal toward smaller keys comes upon the nearest live pair behind it,
/// and has then what lies before that pair still behind.
pub proof fn law_reverse_traversal_finds_nearest_live_pair(
    l: Seq<DataView>,
    c: CursorView,
    q: Scan,
    table: Result<Option<Tree>, Error>,
    now: u64,
) -> (n: int)
    requires
        c.pos matches Some(p) ==> 0 <= p < l.len(),
        q.reverse,
    ensures
        rightly_found(
            cursor::behind(l, c).reverse(),
            n,
            q,
            table,
            now,
            iter::found(l, c, q, table, now).0,
        ),
        iter::found(l, c, q, table, now).0 is Pair ==> cursor::behind(
            l,
            iter::found(l, c, q, table, now).1,
        ) == cursor::behind(l, c).take(cursor::behind(l, c).len() - n - 1),
    decreases cursor::behind(l, c).len(),
{
    let b = cursor::behind(l, c);
    let s = b.reverse();
    let (data, after) = iter::moved(l, c, true);
    iter::lemma_moved(l, c, true);
    cursor::law_cursor_returns_what_is_behind(l, c);
    if b.len() == 0 {
        0
    } else {
        assert(data == Some(s[0]));
        if passed_over(s[0], q, table, now) {
            let m = law_reverse_traversal_finds_nearest_live_pair(l, after, q, table, now);
            let rest = cursor::behind(l, after).reverse();
            assert(rest =~= s.skip(1));
            assert forall|i: int| 0 <= i < m + 1 implies passed_over(
                #[trigger] s[i],
                q,
                table,
                now,
            ) by {
                if i > 0 {
                    assert(s[i] == rest[i - 1]);
                }
            }
            if m < rest.len() {
                assert(s[m + 1] == rest[m]);
                assert(b.drop_last().take(b.drop_last().len() - m - 1) =~= b.take(
                    b.len() - m - 2,
                ));
            }
            m + 1
        } else {
            assert(b.drop_last() =~= b.take(b.len() - 1));
            0
        }
    }
}

/// What traversals toward larger keys find depends on what is ahead alone.
pub proof fn lemma_found_by_ahead(
    l: Seq<DataView>,
    a: CursorView,
    b: CursorView,
    q: Scan,
    table: Result<Option<Tree>, Error>,
    now: u64,
)
    requires
        cursor::sound(l, a),
        cursor::sound(l, b),
        !q.reverse,
        cursor::ahead(l, a) == cursor::ahead(l, b),
    ensures
        iter::found(l, a, q, table, now).0 == iter::found(l, b, q, table, now).0,
        cursor::sound(l, iter::found(l, a, q, table, now).1),
        cursor::sound(l, iter::found(l, b, q, table, now).1),
        cursor::ahead(l, iter::found(l, a, q, table, now).1) == cursor::ahead(
            l,
            iter::found(l, b, q, table, now).1,
        ),
    decreases cursor::ahead(l, a).len(),
{
    let x = iter::moved(l, a, false).1;
    let y = iter::moved(l, b, false).1;
    iter::lemma_moved(l, a, false);
    iter::lemma_moved(l, b, false);
    cursor::law_cursor_returns_what_is_ahead(l, a);
    cursor::law_cursor_returns_what_is_ahead(l, b);
    let s = cursor::ahead(l, a);
    if s.len() > 0 {
        if passed_over(s[0], q, table, now) {
            lemma_found_by_ahead(l, x, y, q, table, now);
        }
    } else {
        assert(cursor::ahead(l, x) =~= cursor::ahead(l, y));
    }
}

/// What a traversal has found once it came upon one thing more.
pub open spec fn took(pairs: Seq<(Seq<u8>, Seq<u8>)>, next: Found) -> (
    Seq<(Seq<u8>, Seq<u8>)>,
    collection::Stop,
) {
    match next {
        Found::End => (pairs, collection::Stop::End),
        Found::Pair(key, value) => (pairs.push((key, value)), collection::Stop::Full),
        Found::Fault(e) => (pairs, collection::Stop::Fault(e)),
        Found::Broken(e) => (pairs, collection::Stop::Fault(e)),
    }
}

/// One step of a traversal adds what it came upon.
pub proof fn lemma_took(
    l: Seq<DataView>,
    c: CursorView,
    q: Scan,
    table: Result<Option<Tree>, Error>,
    now: u64,
    n: nat,
    pairs: Seq<(Seq<u8>, Seq<u8>)>,
    stop: collection::Stop,
    at: CursorView,
    next: Found,
    after: CursorView,
)
    requires
        n > 0,
        collection::taken(l, c, q, table, now, (n - 1) as nat) == (pairs, stop, at),
        iter::found(l, at, q, table, now) == (next, after),
    ensures
        collection::taken(l, c, q, table, now, n) == if stop is Full {
            (took(pairs, next).0, took(pairs, next).1, after)
        } else {
            (pairs, stop, at)
        },
{
}

proof fn lemma_taken_by_ahead(
    l: Seq<DataView>,
    a: CursorView,
    b: CursorView,
    q: Scan,
    table: Result<Option<Tree>, Error>,
    now: u64,
    n: nat,
)
    requires
        cursor::sound(l, a),
        cursor::sound(l, b),
        !q.reverse,
        cursor::ahead(l, a) == cursor::ahead(l, b),
    ensures
        ({
            let x = collection::taken(l, a, q, table, now, n);
            let y = collection::taken(l, b, q, table, now, n);
            &&& x.0 == y.0
            &&& x.1 == y.1
            &&& cursor::sound(l, x.2)
            &&& cursor::sound(l, y.2)
            &&& cursor::ahead(l, x.2) == cursor::ahead(l, y.2)
        }),
    decreases n,
{
    if n > 0 {
        lemma_taken_by_ahead(l, a, b, q, table, now, (n - 1) as nat);
        let (p, stop, x) = collection::taken(l, a, q, table, now, (n - 1) as nat);
        let y = collection::taken(l, b, q, table, now, (n - 1) as nat).2;
        lemma_found_by_ahead(l, x, y, q, table, now);
        let (next, u) = iter::found(l, x, q, table, now);
        let v = iter::found(l, y, q, table, now).1;
        lemma_took(l, a, q, table, now, n, p, stop, x, next, u);
        lemma_took(l, b, q, table, now, n, p, stop, y, next, v);
    }
}

/// A page that begins after the last pair of another has just the pairs that
/// come next: nothing is left out, and nothing comes twice.
pub proof fn law_pages_continue(
    l: Seq<DataView>,
    c: CursorView,
    table: Result<Option<Tree>, Error>,
    now: u64,
    limit: nat,
    more: nat,
)
    requires
        cursor::in_order(l),
        cursor::sound(l, c),
        limit > 0,
        collection::taken(l, c, iter::everything(), table, now, limit).1 is Full,
    ensures
        ({
            let q = iter::everything();
            let (pairs, _, at) = collection::taken(l, c, q, table, now, limit);
            let after = collection::started(l, pairs.last().0, true);
            &&& pairs.len() == limit
            &&& collection::taken(l, after, q, table, now, more).0 == collection::taken(
                l,
                at,
                q,
                table,
                now,
                more,
            ).0
            &&& collection::taken(l, after, q, table, now, more).1 == collection::taken(
                l,
                at,
                q,
                table,
                now,
                more,
            ).1
        }),
{
    let q = iter::everything();
    let before = collection::taken(l, c, q, table, now, (limit - 1) as nat);
    let (pairs, stop, at) = collection::taken(l, c, q, table, now, limit);
    collection::lemma_taken_full(l, c, q, table, now, limit);
    lemma_taken_by_ahead(l, c, c, q, table, now, limit);
    lemma_taken_by_ahead(l, c, c, q, table, now, (limit - 1) as nat);
    let n = law_traversal_finds_nearest_live_pair(l, before.2, q, table, now);
    let s = cursor::ahead(l, before.2);
    let key = pairs.last().0;
    let m = l.len() - s.len();
    lemma_ahead_is_suffix(l, before.2);
    let i = m + n;
    assert(s[n] == l[i]);
    assert(s.skip(n + 1) =~= l.skip(i + 1));
    collection::law_traversal_starts_at_its_key(l, key, true);
    let after = collection::started(l, key, true);
    let rest = cursor::ahead(l, after);
    let k = l.len() - rest.len();
    bytes::lemma_lex_irreflexive(key);
    assert(k == i + 1) by {
        if k <= i {
            assert(bytes::lex_lt(key, l[i].key()));
        }
        if k > i + 1 {
            assert(bytes::lex_lt(l[i].key(), l[i + 1].key()));
            bytes::lemma_lex_total(key, l[i + 1].key());
        }
    }
    collection::lemma_started_sound(l, key, true);
    lemma_taken_by_ahead(l, after, at, q, table, now, more);
}

/// What is ahead of a cursor is the end of the list.
pub proof fn lemma_ahead_is_suffix(l: Seq<DataView>, c: CursorView)
    requires
        cursor::sound(l, c),
    ensures
        cursor::ahead(l, c).len() <= l.len(),
        cursor::ahead(l, c) == l.skip(l.len() - cursor::ahead(l, c).len()),
{
    let s = cursor::ahead(l, c);
    assert(s =~= l.skip(l.len() - s.len()));
}

} // verus!
