//! What holds of walking through the live entries of a typed collection.

use crate::api::cursor::{self, CursorView};
use crate::api::tree::{self, Node, Tree};
use crate::api::ttl;
use crate::application::collection::{self, Stop};
use crate::application::iter::{self, Found, PageToken, Scan, ScanPage};
use crate::application::laws;
use crate::application::writing;
use crate::bytes;
use crate::data::DataView;
use crate::error::Error;
use crate::typed::{self, CodecError, KeyCodec, ValueCodec};
use vstd::prelude::*;

verus! {

/// Whether pairs are the live ones of a bucket whose keys are wanted, each once
/// and in key order.
pub open spec fn rightly_gathered(
    t: Tree,
    pairs: Seq<(Seq<u8>, Seq<u8>)>,
    now: u64,
    wanted: spec_fn(Seq<u8>) -> bool,
) -> bool {
    &&& forall|i: int, j: int|
        0 <= i < j < pairs.len() ==> bytes::lex_lt((#[trigger] pairs[i]).0, (#[trigger] pairs[j]).0)
    &&& forall|i: int|
        0 <= i < pairs.len() ==> wanted((#[trigger] pairs[i]).0) && ttl::live(t, pairs[i].0, now)
            == Ok::<Option<Seq<u8>>, Error>(Some(pairs[i].1))
    &&& forall|k: Seq<u8>|
        wanted(k) && (#[trigger] ttl::live(t, k, now) matches Ok(Some(_))) ==> exists|i: int|
            0 <= i < pairs.len() && (#[trigger] pairs[i]).0 == k
}

/// Whether an entry is a live pair that a walk hands out.
spec fn handed(t: Tree, d: DataView, q: Scan, now: u64) -> bool {
    d is KeyValue && !iter::beyond(q, d.key()) && (ttl::live(t, d.key(), now) matches Ok(Some(_)))
}

/// The live pairs among entries.
spec fn live_of(t: Tree, s: Seq<DataView>, q: Scan, now: u64) -> Seq<(Seq<u8>, Seq<u8>)>
    decreases s.len(),
{
    if s.len() == 0 {
        Seq::empty()
    } else {
        let front = live_of(t, s.drop_last(), q, now);
        if handed(t, s.last(), q, now) {
            front.push((s.last().key(), s.last()->KeyValue_1))
        } else {
            front
        }
    }
}

/// Whether entries are what a bucket holds.
spec fn of_bucket(t: Tree, s: Seq<DataView>) -> bool {
    forall|i: int|
        0 <= i < s.len() && (#[trigger] s[i]) is KeyValue ==> tree::value_of(t, s[i].key()) == Some(
            s[i]->KeyValue_1,
        )
}

proof fn lemma_live_step(t: Tree, s: Seq<DataView>, q: Scan, now: u64, n: int)
    requires
        0 <= n < s.len(),
    ensures
        live_of(t, s.take(n + 1), q, now) == if handed(t, s[n], q, now) {
            live_of(t, s.take(n), q, now).push((s[n].key(), s[n]->KeyValue_1))
        } else {
            live_of(t, s.take(n), q, now)
        },
{
    assert(s.take(n + 1).drop_last() =~= s.take(n));
    assert(s.take(n + 1).last() == s[n]);
}

/// What is passed over hands nothing out.
proof fn lemma_live_idle(t: Tree, s: Seq<DataView>, q: Scan, now: u64, m: int, n: int)
    requires
        0 <= m <= n <= s.len(),
        of_bucket(t, s),
        forall|i: int|
            m <= i < n ==> laws::passed_over(#[trigger] s[i], q, iter::table_of(t), now),
    ensures
        live_of(t, s.take(n), q, now) == live_of(t, s.take(m), q, now),
    decreases n - m,
{
    if m < n {
        lemma_live_idle(t, s, q, now, m, n - 1);
        lemma_live_step(t, s, q, now, n - 1);
        assert(laws::passed_over(s[n - 1], q, iter::table_of(t), now));
    }
}

/// How far a walk has come: the live pairs of the entries that it has left
/// behind.
spec fn walked(
    t: Tree,
    s: Seq<DataView>,
    q: Scan,
    now: u64,
    pairs: Seq<(Seq<u8>, Seq<u8>)>,
    stop: Stop,
    rest: Seq<DataView>,
    m: int,
) -> bool {
    &&& 0 <= m <= s.len()
    &&& pairs == live_of(t, s.take(m), q, now)
    &&& match stop {
        Stop::Full => rest == s.skip(m) && pairs.len() <= m,
        Stop::End => m == s.len() || (s[m] is KeyValue && iter::beyond(q, s[m].key())),
        Stop::Fault(_) => m < s.len() && s[m] is KeyValue && !iter::beyond(q, s[m].key())
            && ttl::live(t, s[m].key(), now) is Err,
    }
}

proof fn lemma_walked(t: Tree, l: Seq<DataView>, c: CursorView, q: Scan, now: u64, n: nat) -> (m:
    int)
    requires
        cursor::sound(l, c),
        !q.reverse,
        of_bucket(t, l),
    ensures
        ({
            let (pairs, stop, at) = collection::taken(l, c, q, iter::table_of(t), now, n);
            &&& walked(t, cursor::ahead(l, c), q, now, pairs, stop, cursor::ahead(l, at), m)
            &&& stop is Full ==> cursor::sound(l, at) && m >= n
        }),
    decreases n,
{
    let s = cursor::ahead(l, c);
    let table = iter::table_of(t);
    laws::lemma_ahead_is_suffix(l, c);
    assert(of_bucket(t, s)) by {
        assert forall|i: int| 0 <= i < s.len() && (#[trigger] s[i]) is KeyValue implies tree::value_of(
            t,
            s[i].key(),
        ) == Some(s[i]->KeyValue_1) by {
            assert(s[i] == l[l.len() - s.len() + i]);
        }
    }
    if n == 0 {
        assert(s.take(0) =~= Seq::<DataView>::empty());
        assert(s.skip(0) =~= s);
        0
    } else {
        let m = lemma_walked(t, l, c, q, now, (n - 1) as nat);
        let (pairs, stop, at) = collection::taken(l, c, q, table, now, (n - 1) as nat);
        if stop is Full {
            let rest = cursor::ahead(l, at);
            let k = laws::law_traversal_finds_nearest_live_pair(l, at, q, table, now);
            laws::lemma_found_by_ahead(l, at, at, q, table, now);
            let (next, after) = iter::found(l, at, q, table, now);
            assert forall|i: int| m <= i < m + k implies laws::passed_over(
                #[trigger] s[i],
                q,
                table,
                now,
            ) by {
                assert(s[i] == rest[i - m]);
            }
            lemma_live_idle(t, s, q, now, m, m + k);
            if m + k < s.len() {
                assert(rest[k] == s[m + k]);
                lemma_live_step(t, s, q, now, m + k);
                assert(rest.skip(k + 1) =~= s.skip(m + k + 1));
                if s[m + k] is KeyValue {
                    assert(tree::value_of(t, s[m + k].key()) == Some(s[m + k]->KeyValue_1));
                }
            }
            laws::lemma_took(l, c, q, table, now, n, pairs, stop, at, next, after);
            match next {
                Found::Pair(_, _) => m + k + 1,
                Found::End => m + k,
                Found::Fault(_) => m + k,
                Found::Broken(_) => m + k,
            }
        } else {
            m
        }
    }
}

/// Whether a pair is among those gathered.
spec fn in_pairs(pairs: Seq<(Seq<u8>, Seq<u8>)>, d: DataView) -> bool {
    exists|j: int|
        0 <= j < pairs.len() && #[trigger] pairs[j] == (d.key(), d->KeyValue_1)
}

/// Whether a gathered pair stands among entries.
spec fn in_entries(s: Seq<DataView>, t: Tree, q: Scan, now: u64, p: (Seq<u8>, Seq<u8>)) -> bool {
    exists|i: int|
        0 <= i < s.len() && handed(t, #[trigger] s[i], q, now) && p == (
            s[i].key(),
            s[i]->KeyValue_1,
        )
}

proof fn lemma_live_of(t: Tree, s: Seq<DataView>, q: Scan, now: u64)
    requires
        cursor::in_order(s),
    ensures
        ({
            let pairs = live_of(t, s, q, now);
            &&& forall|i: int|
                0 <= i < s.len() && handed(t, #[trigger] s[i], q, now) ==> in_pairs(pairs, s[i])
            &&& forall|j: int| 0 <= j < pairs.len() ==> in_entries(s, t, q, now, #[trigger] pairs[j])
            &&& forall|i: int, j: int|
                0 <= i < j < pairs.len() ==> bytes::lex_lt(
                    (#[trigger] pairs[i]).0,
                    (#[trigger] pairs[j]).0,
                )
        }),
    decreases s.len(),
{
    if s.len() > 0 {
        let front = s.drop_last();
        let n = s.len() - 1;
        let p = live_of(t, front, q, now);
        let pairs = live_of(t, s, q, now);
        assert(cursor::in_order(front)) by {
            assert forall|i: int, j: int| 0 <= i < j < front.len() implies bytes::lex_lt(
                (#[trigger] front[i]).key(),
                (#[trigger] front[j]).key(),
            ) by {
                assert(bytes::lex_lt(s[i].key(), s[j].key()));
            }
        }
        lemma_live_of(t, front, q, now);
        assert forall|i: int| 0 <= i < s.len() && handed(t, #[trigger] s[i], q, now) implies in_pairs(
            pairs,
            s[i],
        ) by {
            if i < n {
                assert(front[i] == s[i]);
                assert(in_pairs(p, s[i]));
                let j = choose|j: int|
                    0 <= j < p.len() && #[trigger] p[j] == (s[i].key(), s[i]->KeyValue_1);
                assert(pairs[j] == p[j]);
            } else {
                assert(pairs[pairs.len() - 1] == (s[i].key(), s[i]->KeyValue_1));
            }
        }
        assert forall|j: int| 0 <= j < pairs.len() implies in_entries(
            s,
            t,
            q,
            now,
            #[trigger] pairs[j],
        ) by {
            if j < p.len() {
                assert(in_entries(front, t, q, now, p[j]));
                let i = choose|i: int|
                    0 <= i < front.len() && handed(t, #[trigger] front[i], q, now) && p[j] == (
                        front[i].key(),
                        front[i]->KeyValue_1,
                    );
                assert(s[i] == front[i]);
            } else {
                assert(handed(t, s[n], q, now));
            }
        }
        assert forall|i: int, j: int| 0 <= i < j < pairs.len() implies bytes::lex_lt(
            (#[trigger] pairs[i]).0,
            (#[trigger] pairs[j]).0,
        ) by {
            assert(pairs[i] == p[i]);
            if j < p.len() {
                assert(pairs[j] == p[j]);
            } else {
                assert(in_entries(front, t, q, now, p[i]));
                let a = choose|a: int|
                    0 <= a < front.len() && handed(t, #[trigger] front[a], q, now) && p[i] == (
                        front[a].key(),
                        front[a]->KeyValue_1,
                    );
                assert(bytes::lex_lt(s[a].key(), s[n].key()));
            }
        }
    }
}

/// Whether the wanted keys are those that a walk from some place on comes upon
/// before it ends.
spec fn well_aimed(l: Seq<DataView>, c: CursorView, q: Scan, wanted: spec_fn(Seq<u8>) -> bool) -> bool {
    let m = l.len() - cursor::ahead(l, c).len();
    &&& forall|i: int| 0 <= i < m ==> !wanted((#[trigger] l[i]).key())
    &&& forall|i: int| m <= i < l.len() ==> wanted((#[trigger] l[i]).key()) == !iter::beyond(
        q,
        l[i].key(),
    )
    &&& forall|i: int, j: int|
        m <= i < j < l.len() && iter::beyond(q, (#[trigger] l[i]).key()) ==> iter::beyond(
            q,
            (#[trigger] l[j]).key(),
        )
}

/// What a walk to its end gathers.
proof fn lemma_gathered(
    node: Node,
    c: CursorView,
    q: Scan,
    now: u64,
    wanted: spec_fn(Seq<u8>) -> bool,
)
    requires
        node.wf(),
        cursor::sound(cursor::data_in(node@), c),
        !q.reverse,
        well_aimed(cursor::data_in(node@), c, q, wanted),
    ensures
        ({
            let (pairs, stop) = writing::gathered(
                cursor::data_in(node@),
                c,
                q,
                iter::table_of(node@),
                now,
            );
            &&& stop !is Full
            &&& stop is End ==> rightly_gathered(node@, pairs, now, wanted)
            &&& stop is Fault ==> exists|k: Seq<u8>|
                wanted(k) && tree::value_of(node@, k) is Some && #[trigger] ttl::live(
                    node@,
                    k,
                    now,
                ) is Err
        }),
{
    let t = node@;
    let l = cursor::data_in(t);
    let s = cursor::ahead(l, c);
    let table = iter::table_of(t);
    let n = iter::left(l, c, q.reverse) + 1;
    crate::api::map::lemma_data_in_order(node);
    assert(of_bucket(t, l)) by {
        assert forall|i: int| 0 <= i < l.len() && (#[trigger] l[i]) is KeyValue implies tree::value_of(
            t,
            l[i].key(),
        ) == Some(l[i]->KeyValue_1) by {
            crate::api::map::lemma_entry(t, l, node, i);
        }
    }
    laws::lemma_ahead_is_suffix(l, c);
    let base = l.len() - s.len();
    let (pairs, stop, at) = collection::taken(l, c, q, table, now, n);
    let m = lemma_walked(t, l, c, q, now, n);
    assert forall|i: int| 0 <= i < s.len() implies #[trigger] s[i] == l[base + i] by {}
    if stop is End {
        let part = s.take(m);
        assert(cursor::in_order(part)) by {
            assert forall|i: int, j: int| 0 <= i < j < part.len() implies bytes::lex_lt(
                (#[trigger] part[i]).key(),
                (#[trigger] part[j]).key(),
            ) by {
                assert(part[i] == l[base + i]);
                assert(part[j] == l[base + j]);
            }
        }
        lemma_live_of(t, part, q, now);
        assert forall|i: int| 0 <= i < pairs.len() implies wanted((#[trigger] pairs[i]).0)
            && ttl::live(t, pairs[i].0, now) == Ok::<Option<Seq<u8>>, Error>(Some(pairs[i].1)) by {
            assert(in_entries(part, t, q, now, pairs[i]));
            let a = choose|a: int|
                0 <= a < part.len() && handed(t, #[trigger] part[a], q, now) && pairs[i] == (
                    part[a].key(),
                    part[a]->KeyValue_1,
                );
            assert(part[a] == l[base + a]);
        }
        assert forall|k: Seq<u8>|
            wanted(k) && (#[trigger] ttl::live(t, k, now) matches Ok(Some(_))) implies exists|
            i: int,
        |
            0 <= i < pairs.len() && (#[trigger] pairs[i]).0 == k by {
            assert(tree::value_of(t, k) is Some);
            crate::api::map::lemma_listed_pair(node, k);
            let j = choose|j: int|
                0 <= j < l.len() && #[trigger] l[j] == cursor::data_of((k, t.items[k]));
            assert(l[j].key() == k);
            assert(j >= base);
            if j >= base + m {
                if m < s.len() {
                    assert(s[m] == l[base + m]);
                    assert(iter::beyond(q, l[j].key()));
                }
            }
            assert(part[j - base] == l[j]);
            assert(in_pairs(pairs, part[j - base]));
        }
    }
    if stop is Fault {
        assert(s[m] == l[base + m]);
        let k = s[m].key();
        assert(wanted(k) && tree::value_of(t, k) is Some && ttl::live(t, k, now) is Err);
    }
}

/// A walk through a range hands out its live entries, from the first key on and
/// before the last, each once and in key order; it fails only where a deadline
/// in the range cannot be read.
pub proof fn law_range_scan_gives_the_range(node: Node, start: Seq<u8>, end: Seq<u8>, now: u64)
    requires
        node.wf(),
    ensures
        ({
            let l = cursor::data_in(node@);
            let wanted = |k: Seq<u8>| bytes::lex_le(start, k) && bytes::lex_lt(k, end);
            let (pairs, stop) = writing::gathered(
                l,
                collection::started(l, start, false),
                Scan { upper: Some((end, false)), ..iter::everything() },
                iter::table_of(node@),
                now,
            );
            &&& stop !is Full
            &&& stop is End ==> rightly_gathered(node@, pairs, now, wanted)
            &&& stop is Fault ==> exists|k: Seq<u8>|
                wanted(k) && tree::value_of(node@, k) is Some && #[trigger] ttl::live(
                    node@,
                    k,
                    now,
                ) is Err
        }),
{
    let l = cursor::data_in(node@);
    let c = collection::started(l, start, false);
    let q = Scan { upper: Some((end, false)), ..iter::everything() };
    let wanted = |k: Seq<u8>| bytes::lex_le(start, k) && bytes::lex_lt(k, end);
    crate::api::map::lemma_data_in_order(node);
    collection::lemma_started_sound(l, start, false);
    collection::law_traversal_starts_at_its_key(l, start, false);
    let m = l.len() - cursor::ahead(l, c).len();
    assert forall|i: int| 0 <= i < l.len() implies (iter::beyond(q, (#[trigger] l[i]).key())
        <==> !bytes::lex_lt(l[i].key(), end)) by {
        bytes::lemma_lex_total(l[i].key(), end);
    }
    assert forall|i: int| 0 <= i < m implies !wanted((#[trigger] l[i]).key()) by {
        bytes::lemma_lex_total(l[i].key(), start);
    }
    assert forall|i: int, j: int|
        m <= i < j < l.len() && iter::beyond(q, (#[trigger] l[i]).key()) implies iter::beyond(
        q,
        (#[trigger] l[j]).key(),
    ) by {
        assert(bytes::lex_lt(l[i].key(), l[j].key()));
        if bytes::lex_lt(l[j].key(), end) {
            bytes::lemma_lex_transitive(l[i].key(), l[j].key(), end);
        }
    }
    lemma_gathered(node, c, q, now, wanted);
}

/// A walk through everything hands out every live entry, each once and in key
/// order.
pub proof fn law_full_scan_gives_everything(node: Node, now: u64)
    requires
        node.wf(),
    ensures
        ({
            let l = cursor::data_in(node@);
            let (pairs, stop) = writing::gathered(
                l,
                cursor::unplaced(),
                iter::everything(),
                iter::table_of(node@),
                now,
            );
            &&& stop !is Full
            &&& stop is End ==> rightly_gathered(node@, pairs, now, |k: Seq<u8>| true)
            &&& stop is Fault ==> exists|k: Seq<u8>|
                tree::value_of(node@, k) is Some && #[trigger] ttl::live(node@, k, now) is Err
        }),
{
    lemma_gathered(node, cursor::unplaced(), iter::everything(), now, |k: Seq<u8>| true);
}

/// What begins with a prefix does not come before it.
proof fn lemma_prefix_below(prefix: Seq<u8>, k: Seq<u8>)
    requires
        k.len() >= prefix.len(),
        k.take(prefix.len() as int) == prefix,
    ensures
        !bytes::lex_lt(k, prefix),
    decreases prefix.len(),
{
    if prefix.len() > 0 {
        assert(k[0] == k.take(prefix.len() as int)[0]);
        assert(k.drop_first().take(prefix.len() - 1) =~= prefix.drop_first());
        lemma_prefix_below(prefix.drop_first(), k.drop_first());
    }
}

/// What stands between a prefix and something that begins with it begins with
/// it too.
proof fn lemma_prefix_between(prefix: Seq<u8>, a: Seq<u8>, b: Seq<u8>)
    requires
        bytes::lex_le(prefix, a),
        bytes::lex_lt(a, b),
        b.len() >= prefix.len(),
        b.take(prefix.len() as int) == prefix,
    ensures
        a.len() >= prefix.len(),
        a.take(prefix.len() as int) == prefix,
    decreases prefix.len(),
{
    if prefix.len() == 0 {
        assert(a.take(0) =~= prefix);
    } else if prefix == a {
        assert(a.take(prefix.len() as int) =~= prefix);
    } else {
        let n = prefix.len() as int;
        assert(b[0] == b.take(n)[0]);
        assert(b.drop_first().take(n - 1) =~= prefix.drop_first());
        assert(a[0] == prefix[0]);
        lemma_prefix_between(prefix.drop_first(), a.drop_first(), b.drop_first());
        assert forall|i: int| 0 <= i < n implies a.take(n)[i] == prefix[i] by {
            if i > 0 {
                assert(a.drop_first().take(n - 1)[i - 1] == prefix.drop_first()[i - 1]);
            }
        }
        assert(a.take(n) =~= prefix);
    }
}

/// A walk under a prefix hands out the live entries whose keys begin with it,
/// each once and in key order.
pub proof fn law_prefix_scan_gives_the_prefix(node: Node, prefix: Seq<u8>, now: u64)
    requires
        node.wf(),
    ensures
        ({
            let l = cursor::data_in(node@);
            let wanted = |k: Seq<u8>| k.len() >= prefix.len() && k.take(prefix.len() as int) == prefix;
            let (pairs, stop) = writing::gathered(
                l,
                collection::started(l, prefix, false),
                Scan { prefix: Some(prefix), ..iter::everything() },
                iter::table_of(node@),
                now,
            );
            &&& stop !is Full
            &&& stop is End ==> rightly_gathered(node@, pairs, now, wanted)
            &&& stop is Fault ==> exists|k: Seq<u8>|
                wanted(k) && tree::value_of(node@, k) is Some && #[trigger] ttl::live(
                    node@,
                    k,
                    now,
                ) is Err
        }),
{
    let l = cursor::data_in(node@);
    let c = collection::started(l, prefix, false);
    let q = Scan { prefix: Some(prefix), ..iter::everything() };
    let wanted = |k: Seq<u8>| k.len() >= prefix.len() && k.take(prefix.len() as int) == prefix;
    crate::api::map::lemma_data_in_order(node);
    collection::lemma_started_sound(l, prefix, false);
    collection::law_traversal_starts_at_its_key(l, prefix, false);
    let m = l.len() - cursor::ahead(l, c).len();
    assert forall|k: Seq<u8>| #[trigger] wanted(k) <==> !iter::beyond(q, k) by {
        if prefix.is_prefix_of(k) {
            assert(k.take(prefix.len() as int) =~= prefix);
        }
        if wanted(k) {
            assert(k.subrange(0, prefix.len() as int) =~= prefix);
        }
    }
    assert forall|i: int| 0 <= i < m implies !wanted((#[trigger] l[i]).key()) by {
        let k = l[i].key();
        if wanted(k) {
            lemma_prefix_below(prefix, k);
            bytes::lemma_lex_total(k, prefix);
        }
    }
    assert forall|i: int, j: int|
        m <= i < j < l.len() && iter::beyond(q, (#[trigger] l[i]).key()) implies iter::beyond(
        q,
        (#[trigger] l[j]).key(),
    ) by {
        assert(bytes::lex_lt(l[i].key(), l[j].key()));
        if wanted(l[j].key()) {
            assert(bytes::lex_lt(prefix, l[i].key()) || l[i].key() == prefix);
            lemma_prefix_between(prefix, l[i].key(), l[j].key());
            assert(wanted(l[i].key()));
        }
    }
    lemma_gathered(node, c, q, now, wanted);
}

/// An entry that a traversal of everything passes over is no live pair.
proof fn lemma_passed_is_not_live(t: Tree, d: DataView, q: Scan, now: u64)
    requires
        laws::passed_over(d, q, iter::table_of(t), now),
        d is KeyValue,
    ensures
        !(ttl::live(t, d.key(), now) matches Ok(Some(_))),
{
}

/// The first entry, which is read and is the first to be taken out, is the live
/// one with the least key.
pub proof fn law_first_entry_has_the_least_key(node: Node, now: u64)
    requires
        node.wf(),
    ensures
        match iter::found(
            cursor::data_in(node@),
            cursor::unplaced(),
            iter::everything(),
            iter::table_of(node@),
            now,
        ).0 {
            Found::Pair(key, value) => ttl::live(node@, key, now) == Ok::<Option<Seq<u8>>, Error>(
                Some(value),
            ) && forall|k: Seq<u8>|
                (#[trigger] ttl::live(node@, k, now) matches Ok(Some(_))) ==> bytes::lex_le(key, k),
            Found::End => forall|k: Seq<u8>|
                !(#[trigger] ttl::live(node@, k, now) matches Ok(Some(_))),
            _ => exists|k: Seq<u8>|
                tree::value_of(node@, k) is Some && #[trigger] ttl::live(node@, k, now) is Err,
        },
{
    let t = node@;
    let l = cursor::data_in(t);
    let q = iter::everything();
    let table = iter::table_of(t);
    crate::api::map::lemma_data_in_order(node);
    let n = laws::law_traversal_finds_nearest_live_pair(l, cursor::unplaced(), q, table, now);
    let next = iter::found(l, cursor::unplaced(), q, table, now).0;
    if n < l.len() {
        crate::api::map::lemma_entry(t, l, node, n);
    }
    assert forall|k: Seq<u8>| (#[trigger] ttl::live(t, k, now) matches Ok(Some(_))) implies (n
        < l.len() && bytes::lex_le(l[n].key(), k)) by {
        crate::api::map::lemma_listed_pair(node, k);
        let j = choose|j: int|
            0 <= j < l.len() && #[trigger] l[j] == cursor::data_of((k, t.items[k]));
        assert(l[j] is KeyValue && l[j].key() == k);
        if j < n {
            assert(laws::passed_over(l[j], q, table, now));
            lemma_passed_is_not_live(t, l[j], q, now);
        }
        if n < j {
            assert(bytes::lex_lt(l[n].key(), l[j].key()));
        }
    }
    match next {
        Found::Fault(_) => {
            assert(ttl::live(t, l[n].key(), now) is Err);
        },
        Found::Broken(_) => {
            assert(ttl::live(t, l[n].key(), now) is Err);
        },
        _ => {},
    }
}

/// The last entry, which is read and is the last to be taken out, is the live
/// one with the greatest key.
pub proof fn law_last_entry_has_the_greatest_key(node: Node, now: u64)
    requires
        node.wf(),
    ensures
        match iter::found(
            cursor::data_in(node@),
            collection::at_last(cursor::data_in(node@)),
            collection::everything_back(),
            iter::table_of(node@),
            now,
        ).0 {
            Found::Pair(key, value) => ttl::live(node@, key, now) == Ok::<Option<Seq<u8>>, Error>(
                Some(value),
            ) && forall|k: Seq<u8>|
                (#[trigger] ttl::live(node@, k, now) matches Ok(Some(_))) ==> bytes::lex_le(k, key),
            Found::End => forall|k: Seq<u8>|
                !(#[trigger] ttl::live(node@, k, now) matches Ok(Some(_))),
            _ => exists|k: Seq<u8>|
                tree::value_of(node@, k) is Some && #[trigger] ttl::live(node@, k, now) is Err,
        },
{
    let t = node@;
    let l = cursor::data_in(t);
    let q = collection::everything_back();
    let c = collection::at_last(l);
    let table = iter::table_of(t);
    crate::api::map::lemma_data_in_order(node);
    let n = laws::law_reverse_traversal_finds_nearest_live_pair(l, c, q, table, now);
    let s = cursor::behind(l, c).reverse();
    assert(cursor::behind(l, c) =~= l);
    assert forall|i: int| 0 <= i < s.len() implies #[trigger] s[i] == l[l.len() - 1 - i] by {}
    let next = iter::found(l, c, q, table, now).0;
    let m = l.len() - 1 - n;
    if n < l.len() {
        crate::api::map::lemma_entry(t, l, node, m);
        assert(s[n] == l[m]);
    }
    assert forall|k: Seq<u8>| (#[trigger] ttl::live(t, k, now) matches Ok(Some(_))) implies (n
        < l.len() && bytes::lex_le(k, l[m].key())) by {
        crate::api::map::lemma_listed_pair(node, k);
        let j = choose|j: int|
            0 <= j < l.len() && #[trigger] l[j] == cursor::data_of((k, t.items[k]));
        assert(l[j] is KeyValue && l[j].key() == k);
        if j > m {
            assert(s[l.len() - 1 - j] == l[j]);
            assert(laws::passed_over(s[l.len() - 1 - j], q, table, now));
            lemma_passed_is_not_live(t, l[j], q, now);
        }
        if j < m {
            assert(bytes::lex_lt(l[j].key(), l[m].key()));
        }
    }
    match next {
        Found::Fault(_) => {
            assert(ttl::live(t, l[m].key(), now) is Err);
        },
        Found::Broken(_) => {
            assert(ttl::live(t, l[m].key(), now) is Err);
        },
        _ => {},
    }
}

/// Whether a key comes after another, if there is one to come after.
pub open spec fn comes_after(from: Option<Seq<u8>>, k: Seq<u8>) -> bool {
    from matches Some(f) ==> bytes::lex_lt(f, k)
}

/// Whether pairs are a page of the live ones of a bucket that come after some
/// key: the next ones in key order, as many as asked for or all that are left.
pub open spec fn page_right(
    t: Tree,
    from: Option<Seq<u8>>,
    limit: nat,
    now: u64,
    pairs: Seq<(Seq<u8>, Seq<u8>)>,
    more: bool,
) -> bool {
    &&& pairs.len() <= limit
    &&& more ==> pairs.len() == limit
    &&& forall|i: int, j: int|
        0 <= i < j < pairs.len() ==> bytes::lex_lt((#[trigger] pairs[i]).0, (#[trigger] pairs[j]).0)
    &&& forall|i: int|
        0 <= i < pairs.len() ==> comes_after(from, (#[trigger] pairs[i]).0) && ttl::live(
            t,
            pairs[i].0,
            now,
        ) == Ok::<Option<Seq<u8>>, Error>(Some(pairs[i].1))
    &&& forall|k: Seq<u8>|
        comes_after(from, k) && (#[trigger] ttl::live(t, k, now) matches Ok(Some(_))) ==> on_page(
            pairs,
            k,
        ) || (more && behind_page(pairs, k))
    &&& more ==> exists|k: Seq<u8>|
        comes_after(from, k) && (#[trigger] ttl::live(t, k, now) matches Ok(Some(_)))
            && behind_page(pairs, k)
}

/// Whether a key is among those of some pairs.
pub open spec fn on_page(pairs: Seq<(Seq<u8>, Seq<u8>)>, k: Seq<u8>) -> bool {
    exists|i: int| 0 <= i < pairs.len() && (#[trigger] pairs[i]).0 == k
}

/// Whether a key comes after all of those of some pairs.
pub open spec fn behind_page(pairs: Seq<(Seq<u8>, Seq<u8>)>, k: Seq<u8>) -> bool {
    forall|i: int| 0 <= i < pairs.len() ==> bytes::lex_lt((#[trigger] pairs[i]).0, k)
}

/// The key that a continuation names.
pub open spec fn key_in(after: Option<PageToken>) -> Option<Seq<u8>> {
    match after {
        Some(token) => Some(token.key@),
        None => None,
    }
}

/// A page of a collection has the next live entries in key order: as many as
/// asked for, or all that are left. It names a continuation just where a live
/// entry is left.
#[verifier::rlimit(80)]
#[verifier::spinoff_prover]
pub proof fn law_page_gives_the_next_entries<K, V, C: KeyCodec<K> + ValueCodec<V>>(
    node: Node,
    codec: C,
    after: Option<PageToken>,
    limit: nat,
    now: u64,
    page: ScanPage<K, V>,
)
    requires
        node.wf(),
        collection::page_read(
            codec,
            node@,
            after,
            limit,
            now,
            Ok::<ScanPage<K, V>, CodecError>(page),
        ),
    ensures
        exists|pairs: Seq<(Seq<u8>, Seq<u8>)>| #[trigger]
            page_right(
                node@,
                key_in(after),
                limit,
                now,
                pairs,
                page.next is Some,
            ) && typed::entries_read(codec, pairs, page.items@),
{
    let t = node@;
    let l = cursor::data_in(t);
    let q = iter::everything();
    let table = iter::table_of(t);
    let from = key_in(after);
    let c = collection::page_start(l, after);
    crate::api::map::lemma_data_in_order(node);
    match after {
        Some(token) => {
            collection::lemma_started_sound(l, token.key@, true);
            collection::law_traversal_starts_at_its_key(l, token.key@, true);
        },
        None => {},
    }
    let s = cursor::ahead(l, c);
    laws::lemma_ahead_is_suffix(l, c);
    let base = l.len() - s.len();
    assert forall|i: int| 0 <= i < l.len() implies (comes_after(from, (#[trigger] l[i]).key())
        <==> i >= base) by {
        match after {
            Some(token) => {
                bytes::lemma_lex_total(l[i].key(), token.key@);
            },
            None => {},
        }
    }
    assert(of_bucket(t, l)) by {
        assert forall|i: int| 0 <= i < l.len() && (#[trigger] l[i]) is KeyValue implies tree::value_of(
            t,
            l[i].key(),
        ) == Some(l[i]->KeyValue_1) by {
            crate::api::map::lemma_entry(t, l, node, i);
        }
    }
    let (pairs, stop, at) = collection::taken(l, c, q, table, now, limit);
    let (next, end) = iter::found(l, at, q, table, now);
    let m = lemma_walked(t, l, c, q, now, limit);
    let n = lemma_walked(t, l, c, q, now, limit + 1);
    laws::lemma_took(l, c, q, table, now, limit + 1, pairs, stop, at, next, end);
    collection::lemma_taken_full(l, c, q, table, now, limit);
    let part = s.take(m);
    lemma_part(l, s, base, m);
    lemma_live_of(t, part, q, now);
    lemma_part(l, s, base, n);
    lemma_live_of(t, s.take(n), q, now);
    let more = page.next is Some;
    assert forall|i: int| 0 <= i < pairs.len() implies comes_after(from, (#[trigger] pairs[i]).0)
        && ttl::live(t, pairs[i].0, now) == Ok::<Option<Seq<u8>>, Error>(Some(pairs[i].1)) by {
        assert(in_entries(part, t, q, now, pairs[i]));
        let a = choose|a: int|
            0 <= a < part.len() && handed(t, #[trigger] part[a], q, now) && pairs[i] == (
                part[a].key(),
                part[a]->KeyValue_1,
            );
        assert(part[a] == l[base + a]);
    }
    if more {
        let key = next->Pair_0;
        let all = pairs.push((key, next->Pair_1));
        assert(all == live_of(t, s.take(n), q, now));
        assert(in_entries(s.take(n), t, q, now, all[pairs.len() as int]));
        let a = choose|a: int|
            0 <= a < n && handed(t, #[trigger] s.take(n)[a], q, now) && all[pairs.len() as int] == (
                s.take(n)[a].key(),
                s.take(n)[a]->KeyValue_1,
            );
        assert(s.take(n)[a] == l[base + a]);
        assert(behind_page(pairs, key)) by {
            assert forall|i: int| 0 <= i < pairs.len() implies bytes::lex_lt(
                (#[trigger] pairs[i]).0,
                key,
            ) by {
                assert(bytes::lex_lt(all[i].0, all[pairs.len() as int].0));
            }
        }
        assert(ttl::live(t, key, now) matches Ok(Some(_)));
    }
    assert forall|k: Seq<u8>|
        comes_after(from, k) && (#[trigger] ttl::live(t, k, now) matches Ok(Some(_))) implies on_page(
        pairs,
        k,
    ) || (more && behind_page(pairs, k)) by {
        crate::api::map::lemma_listed_pair(node, k);
        let j = choose|j: int|
            0 <= j < l.len() && #[trigger] l[j] == cursor::data_of((k, t.items[k]));
        assert(l[j].key() == k && l[j] is KeyValue);
        assert(j >= base);
        if j < base + m {
            assert(part[j - base] == l[j]);
            assert(handed(t, part[j - base], q, now));
            assert(in_pairs(pairs, part[j - base]));
            let i = choose|i: int|
                0 <= i < pairs.len() && #[trigger] pairs[i] == (
                    part[j - base].key(),
                    part[j - base]->KeyValue_1,
                );
            assert(pairs[i].0 == k);
        } else if more {
            assert forall|i: int| 0 <= i < pairs.len() implies bytes::lex_lt(
                (#[trigger] pairs[i]).0,
                k,
            ) by {
                assert(in_entries(part, t, q, now, pairs[i]));
                let a = choose|a: int|
                    0 <= a < part.len() && handed(t, #[trigger] part[a], q, now) && pairs[i] == (
                        part[a].key(),
                        part[a]->KeyValue_1,
                    );
                assert(part[a] == l[base + a]);
                assert(bytes::lex_lt(l[base + a].key(), l[j].key()));
            }
        } else {
            assert(n == s.len());
            assert(s.take(n)[j - base] == l[j]);
            assert(handed(t, s.take(n)[j - base], q, now));
            assert(in_pairs(pairs, s.take(n)[j - base]));
            let i = choose|i: int|
                0 <= i < pairs.len() && #[trigger] pairs[i] == (
                    s.take(n)[j - base].key(),
                    s.take(n)[j - base]->KeyValue_1,
                );
            assert(pairs[i].0 == k);
        }
    }
    assert(page_right(t, from, limit, now, pairs, more));
}

/// The beginning of what is ahead is in key order.
proof fn lemma_part(l: Seq<DataView>, s: Seq<DataView>, base: int, m: int)
    requires
        cursor::in_order(l),
        0 <= base,
        base + s.len() == l.len(),
        s == l.skip(base),
        0 <= m <= s.len(),
    ensures
        cursor::in_order(s.take(m)),
{
    let part = s.take(m);
    assert forall|i: int, j: int| 0 <= i < j < part.len() implies bytes::lex_lt(
        (#[trigger] part[i]).key(),
        (#[trigger] part[j]).key(),
    ) by {
        assert(part[i] == l[base + i]);
        assert(part[j] == l[base + j]);
    }
}

} // verus!
