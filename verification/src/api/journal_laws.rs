//! What holds of the journal: what it keeps, and what a consumer is given.

use crate::api::changes::{self, ChangeSetView, FilterView};
use crate::api::cursor;
use crate::api::journal::{self, JournalConfig};
use crate::api::merge_laws::alike;
use crate::api::names;
use crate::api::sweep_laws::{lemma_sorted_with, lemma_sorted_without};
use crate::api::tree::{self, Item, Tree};
use crate::api::ttl_laws::sorted;
use crate::assoc;
use crate::bytemap;
use crate::bytes;
use crate::data::DataView;
use crate::error::Error;
use vstd::prelude::*;

verus! {

/// The record of a transaction in a journal, if it is there.
pub open spec fn record_of(journal: Tree, id: u64) -> Option<Seq<u8>> {
    tree::value_of(journal, journal::tx_key_of(id))
}

/// Whether a change set tells of a journaled transaction what a filter asks for:
/// all of its changes that are asked for, in their order.
pub open spec fn tells_of(
    told: ChangeSetView,
    id: u64,
    record: Seq<u8>,
    filter: Option<FilterView>,
) -> bool {
    &&& journal::set_of(id, record) is Ok
    &&& told.transaction_id == id
    &&& told.truncated == journal::set_of(id, record)->Ok_0.truncated
    &&& told.changes == match filter {
        None => journal::set_of(id, record)->Ok_0.changes,
        Some(f) => changes::selected(f, journal::set_of(id, record)->Ok_0.changes),
    }
}

/// The key of a transaction is the one that is made of it.
proof fn lemma_tx_of(key: Seq<u8>)
    requires
        journal::tx_of(key) is Some,
    ensures
        key == journal::tx_key_of(journal::tx_of(key)->0),
{
    bytes::lemma_be_inverse(key.skip(1));
    bytes::lemma_pow256_widths();
    assert(key =~= seq![key[0]] + key.skip(1));
}

/// The records of the first entries of a journal: each stands there once, in the
/// order of the transactions.
proof fn lemma_records(l: Seq<DataView>)
    requires
        cursor::in_order(l),
    ensures
        ({
            let list = journal::records(l);
            &&& forall|a: int, b: int|
                0 <= a < b < list.len() ==> (#[trigger] list[a]).0 < (#[trigger] list[b]).0
            &&& forall|a: int|
                0 <= a < list.len() ==> l.contains(
                    DataView::KeyValue(
                        journal::tx_key_of((#[trigger] list[a]).0),
                        list[a].1,
                    ),
                )
            &&& forall|id: u64, v: Seq<u8>|
                #[trigger] l.contains(DataView::KeyValue(journal::tx_key_of(id), v))
                    ==> list.contains((id, v))
        }),
    decreases l.len(),
{
    let list = journal::records(l);
    if l.len() > 0 {
        let front = l.drop_last();
        let before = journal::records(front);
        let n = l.len() - 1;
        assert(cursor::in_order(front)) by {
            assert forall|i: int, j: int| 0 <= i < j < front.len() implies bytes::lex_lt(
                (#[trigger] front[i]).key(),
                (#[trigger] front[j]).key(),
            ) by {
                assert(bytes::lex_lt(l[i].key(), l[j].key()));
            }
        }
        lemma_records(front);
        assert(before.is_prefix_of(list));
        assert forall|a: int| 0 <= a < list.len() implies l.contains(
            DataView::KeyValue(journal::tx_key_of((#[trigger] list[a]).0), list[a].1),
        ) by {
            if a < before.len() {
                assert(list[a] == before[a]);
                let d = DataView::KeyValue(journal::tx_key_of(before[a].0), before[a].1);
                assert(front.contains(d));
                let i = choose|i: int| 0 <= i < front.len() && front[i] == d;
                assert(l[i] == d);
            } else {
                lemma_tx_of(l.last().key());
                assert(l[n] == DataView::KeyValue(journal::tx_key_of(list[a].0), list[a].1));
            }
        }
        assert forall|a: int, b: int| 0 <= a < b < list.len() implies (#[trigger] list[a]).0 < (
        #[trigger] list[b]).0 by {
            if b < before.len() {
                assert(before[a].0 < before[b].0);
            } else {
                assert(list[a] == before[a]);
                let d = DataView::KeyValue(journal::tx_key_of(before[a].0), before[a].1);
                assert(front.contains(d));
                let i = choose|i: int| 0 <= i < front.len() && front[i] == d;
                assert(bytes::lex_lt(l[i].key(), l[n].key()));
                lemma_tx_of(l.last().key());
                journal::law_tx_keys_are_in_order(before[a].0, list[b].0);
            }
        }
        assert forall|id: u64, v: Seq<u8>|
            #[trigger] l.contains(
                DataView::KeyValue(journal::tx_key_of(id), v),
            ) implies list.contains((id, v)) by {
            let d = DataView::KeyValue(journal::tx_key_of(id), v);
            let i = choose|i: int| 0 <= i < l.len() && l[i] == d;
            journal::law_tx_keys_are_in_order(id, id);
            assert(journal::tx_key_of(id).len() == 9) by {
                bytes::lemma_be_of_len(id as nat, 8);
            }
            if i < n {
                assert(front[i] == d);
                assert(front.contains(d));
                assert(before.contains((id, v)));
                let j = choose|j: int| 0 <= j < before.len() && before[j] == (id, v);
                assert(list[j] == (id, v));
            } else {
                assert(list[list.len() - 1] == (id, v));
            }
        }
    }
}

/// The records of a journal are those under the keys of transactions.
proof fn lemma_journal_records(journal: Tree)
    requires
        sorted(journal),
    ensures
        ({
            let list = journal::records(cursor::data_in(journal));
            &&& forall|a: int, b: int|
                0 <= a < b < list.len() ==> (#[trigger] list[a]).0 < (#[trigger] list[b]).0
            &&& forall|a: int|
                0 <= a < list.len() ==> record_of(journal, (#[trigger] list[a]).0) == Some(
                    list[a].1,
                )
            &&& forall|id: u64|
                (#[trigger] record_of(journal, id)) is Some ==> list.contains(
                    (id, record_of(journal, id)->0),
                )
        }),
{
    let l = cursor::data_in(journal);
    let e = tree::listing(journal);
    let list = journal::records(l);
    bytemap::lemma_ascending_distinct(e);
    assert(cursor::in_order(l)) by {
        assert forall|i: int, j: int| 0 <= i < j < l.len() implies bytes::lex_lt(
            (#[trigger] l[i]).key(),
            (#[trigger] l[j]).key(),
        ) by {
            assert(bytes::lex_lt(e[i].0, e[j].0));
        }
    }
    lemma_records(l);
    assert forall|a: int| 0 <= a < list.len() implies record_of(journal, (#[trigger] list[a]).0)
        == Some(list[a].1) by {
        let d = DataView::KeyValue(journal::tx_key_of(list[a].0), list[a].1);
        assert(l.contains(d));
        let i = choose|i: int| 0 <= i < l.len() && l[i] == d;
        assoc::lemma_assoc_at(e, i);
    }
    assert forall|id: u64| (#[trigger] record_of(journal, id)) is Some implies list.contains(
        (id, record_of(journal, id)->0),
    ) by {
        let key = journal::tx_key_of(id);
        assoc::lemma_assoc_has(e, key);
        let i = choose|i: int| 0 <= i < e.len() && (#[trigger] e[i]).0 == key;
        assoc::lemma_assoc_at(e, i);
        let d = DataView::KeyValue(key, record_of(journal, id)->0);
        assert(l[i] == d);
        assert(l.contains(d));
    }
}

/// Whether a transaction is among change sets.
pub open spec fn given(sets: Seq<ChangeSetView>, id: u64) -> bool {
    exists|a: int| 0 <= a < sets.len() && (#[trigger] sets[a]).transaction_id == id
}

/// Whether change sets are all of transactions before one.
pub open spec fn all_before(sets: Seq<ChangeSetView>, id: u64) -> bool {
    forall|a: int| 0 <= a < sets.len() ==> (#[trigger] sets[a]).transaction_id < id
}

/// Whether a replay is right: every transaction came after the one asked for,
/// the oldest first, and tells what is asked for; and every journaled
/// transaction that came after is among them, unless there are as many as may
/// be, and all of them older.
pub open spec fn replayed_right(
    journal: Tree,
    after: u64,
    limit: nat,
    filter: Option<FilterView>,
    sets: Seq<ChangeSetView>,
) -> bool {
    &&& sets.len() <= limit
    &&& forall|a: int, b: int|
        0 <= a < b < sets.len() ==> (#[trigger] sets[a]).transaction_id < (
        #[trigger] sets[b]).transaction_id
    &&& forall|a: int|
        0 <= a < sets.len() ==> (#[trigger] sets[a]).transaction_id > after && record_of(
            journal,
            sets[a].transaction_id,
        ) is Some && tells_of(
            sets[a],
            sets[a].transaction_id,
            record_of(journal, sets[a].transaction_id)->0,
            filter,
        )
    &&& forall|id: u64|
        id > after && (#[trigger] record_of(journal, id)) is Some ==> given(sets, id) || (
        sets.len() == limit && all_before(sets, id))
}

/// Whether a change set is that of one of some records.
spec fn stems(list: Seq<(u64, Seq<u8>)>, set: ChangeSetView, filter: Option<FilterView>) -> bool {
    exists|i: int|
        0 <= i < list.len() && (#[trigger] list[i]).0 == set.transaction_id && tells_of(
            set,
            list[i].0,
            list[i].1,
            filter,
        )
}

proof fn lemma_replayed(
    list: Seq<(u64, Seq<u8>)>,
    after: u64,
    limit: nat,
    filter: Option<FilterView>,
)
    requires
        journal::replayed(list, after, limit, filter) is Ok,
        forall|a: int, b: int|
            0 <= a < b < list.len() ==> (#[trigger] list[a]).0 < (#[trigger] list[b]).0,
    ensures
        ({
            let sets = journal::replayed(list, after, limit, filter)->Ok_0;
            &&& sets.len() <= limit
            &&& forall|a: int, b: int|
                0 <= a < b < sets.len() ==> (#[trigger] sets[a]).transaction_id < (
                #[trigger] sets[b]).transaction_id
            &&& forall|a: int|
                0 <= a < sets.len() ==> (#[trigger] sets[a]).transaction_id > after && stems(
                    list,
                    sets[a],
                    filter,
                )
            &&& forall|i: int|
                0 <= i < list.len() && (#[trigger] list[i]).0 > after ==> given(
                    sets,
                    list[i].0,
                ) || (sets.len() == limit && all_before(sets, list[i].0))
        }),
    decreases list.len(),
{
    let sets = journal::replayed(list, after, limit, filter)->Ok_0;
    if list.len() > 0 {
        let front = list.drop_last();
        let n = list.len() - 1;
        assert(list[n] == list.last());
        assert forall|a: int, b: int| 0 <= a < b < front.len() implies (#[trigger] front[a]).0 < (
        #[trigger] front[b]).0 by {
            assert(list[a].0 < list[b].0);
        }
        lemma_replayed(front, after, limit, filter);
        let before = journal::replayed(front, after, limit, filter)->Ok_0;
        assert(sets == before || (sets.len() == before.len() + 1 && before.is_prefix_of(sets)
            && list[n].0 > after && before.len() != limit && tells_of(
            sets.last(),
            list[n].0,
            list[n].1,
            filter,
        )));
        assert forall|a: int| 0 <= a < before.len() implies (#[trigger] before[a]).transaction_id
            < list[n].0 && stems(list, before[a], filter) by {
            assert(stems(front, before[a], filter));
            let i = choose|i: int|
                0 <= i < front.len() && (#[trigger] front[i]).0 == before[a].transaction_id
                    && tells_of(before[a], front[i].0, front[i].1, filter);
            assert(list[i] == front[i]);
            assert(list[i].0 < list[n].0);
        }
        assert forall|a: int| 0 <= a < sets.len() implies (#[trigger] sets[a]).transaction_id
            > after && stems(list, sets[a], filter) by {
            if a < before.len() {
                assert(sets[a] == before[a]);
            } else {
                assert(tells_of(sets[a], list[n].0, list[n].1, filter));
            }
        }
        assert forall|a: int, b: int| 0 <= a < b < sets.len() implies (
        #[trigger] sets[a]).transaction_id < (#[trigger] sets[b]).transaction_id by {
            assert(sets[a] == before[a]);
            if b < before.len() {
                assert(sets[b] == before[b]);
            }
        }
        assert forall|i: int| 0 <= i < list.len() && (#[trigger] list[i]).0 > after implies given(
            sets,
            list[i].0,
        ) || (sets.len() == limit && all_before(sets, list[i].0)) by {
            if i < n {
                assert(front[i] == list[i]);
                if given(before, list[i].0) {
                    let a = choose|a: int|
                        0 <= a < before.len() && (#[trigger] before[a]).transaction_id
                            == list[i].0;
                    assert(sets[a] == before[a]);
                } else {
                    assert(sets == before);
                }
            } else if before.len() != limit {
                assert(sets[before.len() as int].transaction_id == list[n].0);
            } else {
                assert(sets == before);
            }
        }
    }
}

/// A replay gives every journaled transaction that came after the one asked for,
/// and no other, oldest first, until there are as many as may be.
pub proof fn law_replay_gives_what_came_after(
    journal: Tree,
    after: u64,
    limit: nat,
    filter: Option<FilterView>,
)
    requires
        sorted(journal),
        journal::replayed(
            journal::records(cursor::data_in(journal)),
            after,
            limit,
            filter,
        ) is Ok,
    ensures
        replayed_right(
            journal,
            after,
            limit,
            filter,
            journal::replayed(
                journal::records(cursor::data_in(journal)),
                after,
                limit,
                filter,
            )->Ok_0,
        ),
{
    let list = journal::records(cursor::data_in(journal));
    let sets = journal::replayed(list, after, limit, filter)->Ok_0;
    lemma_journal_records(journal);
    lemma_replayed(list, after, limit, filter);
    assert forall|a: int| 0 <= a < sets.len() implies (#[trigger] sets[a]).transaction_id > after
        && record_of(journal, sets[a].transaction_id) is Some && tells_of(
        sets[a],
        sets[a].transaction_id,
        record_of(journal, sets[a].transaction_id)->0,
        filter,
    ) by {
        assert(stems(list, sets[a], filter));
        let i = choose|i: int|
            0 <= i < list.len() && (#[trigger] list[i]).0 == sets[a].transaction_id && tells_of(
                sets[a],
                list[i].0,
                list[i].1,
                filter,
            );
        assert(record_of(journal, list[i].0) == Some(list[i].1));
    }
    assert forall|id: u64| id > after && (#[trigger] record_of(journal, id)) is Some implies given(
        sets,
        id,
    ) || (sets.len() == limit && all_before(sets, id)) by {
        let r = (id, record_of(journal, id)->0);
        assert(list.contains(r));
        let i = choose|i: int| 0 <= i < list.len() && list[i] == r;
        assert(list[i].0 > after);
    }
}

/// A replay fails on nothing but a record, of a transaction that came after the
/// one asked for, that cannot be read.
pub proof fn law_readable_journals_are_replayed(
    journal: Tree,
    after: u64,
    limit: nat,
    filter: Option<FilterView>,
)
    requires
        sorted(journal),
        forall|id: u64|
            id > after && (#[trigger] record_of(journal, id)) is Some ==> journal::set_of(
                id,
                record_of(journal, id)->0,
            ) is Ok,
    ensures
        journal::replayed(
            journal::records(cursor::data_in(journal)),
            after,
            limit,
            filter,
        ) is Ok,
{
    let list = journal::records(cursor::data_in(journal));
    lemma_journal_records(journal);
    assert forall|i: int| 0 <= i < list.len() && (#[trigger] list[i]).0
        > after implies journal::set_of(list[i].0, list[i].1) is Ok by {
        assert(record_of(journal, list[i].0) == Some(list[i].1));
    }
    lemma_replays(list, after, limit, filter);
}

proof fn lemma_replays(
    list: Seq<(u64, Seq<u8>)>,
    after: u64,
    limit: nat,
    filter: Option<FilterView>,
)
    requires
        forall|i: int|
            0 <= i < list.len() && (#[trigger] list[i]).0 > after ==> journal::set_of(
                list[i].0,
                list[i].1,
            ) is Ok,
    ensures
        journal::replayed(list, after, limit, filter) is Ok,
    decreases list.len(),
{
    if list.len() > 0 {
        let front = list.drop_last();
        assert(list[list.len() - 1] == list.last());
        assert forall|i: int| 0 <= i < front.len() && (#[trigger] front[i]).0
            > after implies journal::set_of(front[i].0, front[i].1) is Ok by {
            assert(front[i] == list[i]);
        }
        lemma_replays(front, after, limit, filter);
    }
}

/// A replay tells how far the journal reaches: from the oldest transaction in it
/// to the newest. There is a gap just if the oldest is not the one asked for,
/// nor the next, nor any before.
pub proof fn law_replay_tells_its_reach(
    journal: Tree,
    after: u64,
    limit: nat,
    filter: Option<FilterView>,
    r: journal::JournalReplay,
    id: u64,
)
    requires
        sorted(journal),
        journal::replays(r, journal::records(cursor::data_in(journal)), after, limit, filter),
    ensures
        r.oldest_available is Some <==> r.newest_available is Some,
        record_of(journal, id) is Some ==> r.oldest_available is Some,
        r.oldest_available is Some ==> {
            let oldest = r.oldest_available->0;
            let newest = r.newest_available->0;
            &&& record_of(journal, oldest) is Some
            &&& record_of(journal, newest) is Some
            &&& record_of(journal, id) is Some ==> oldest <= id <= newest
        },
        r.gap is Some <==> r.oldest_available is Some && after + 1 < r.oldest_available->0,
        r.gap matches Some(gap) ==> gap.requested_after == after && Some(gap.oldest_available)
            == r.oldest_available,
{
    let list = journal::records(cursor::data_in(journal));
    lemma_journal_records(journal);
    let n = list.len() - 1;
    if list.len() > 0 {
        assert(record_of(journal, list[0].0) == Some(list[0].1));
        assert(record_of(journal, list[n].0) == Some(list[n].1));
    }
    if record_of(journal, id) is Some {
        let x = (id, record_of(journal, id)->0);
        assert(list.contains(x));
        let i = choose|i: int| 0 <= i < list.len() && list[i] == x;
        if i > 0 {
            assert(list[0].0 < list[i].0);
        }
        if i < n {
            assert(list[i].0 < list[n].0);
        }
    }
}

/// The keys of transactions are those of the records.
proof fn lemma_keys_of_records(l: Seq<DataView>)
    ensures
        ({
            let keys = journal::tx_keys(l);
            let list = journal::records(l);
            &&& keys.len() == list.len()
            &&& forall|i: int|
                0 <= i < keys.len() ==> #[trigger] keys[i] == journal::tx_key_of(list[i].0)
        }),
    decreases l.len(),
{
    if l.len() > 0 {
        let front = l.drop_last();
        lemma_keys_of_records(front);
        if l.last() is KeyValue && journal::tx_of(l.last().key()) is Some {
            lemma_tx_of(l.last().key());
        }
        let keys = journal::tx_keys(l);
        let list = journal::records(l);
        assert forall|i: int| 0 <= i < keys.len() implies #[trigger] keys[i]
            == journal::tx_key_of(list[i].0) by {
            if i < journal::tx_keys(front).len() {
                assert(keys[i] == journal::tx_keys(front)[i]);
                assert(list[i] == journal::records(front)[i]);
            }
        }
    }
}

/// The transactions in a journal.
pub open spec fn journaled_ids(journal: Tree) -> Set<u64> {
    Set::new(|id: u64| record_of(journal, id) is Some)
}

/// The journal keeps the newest transactions, as many as it is to keep. The
/// record that is added is kept if it is the newest, and a record that is kept
/// is as it was; what goes is older than all that stays, and goes only where
/// there are as many as are to be kept. Nothing but transactions goes.
pub proof fn law_journal_keeps_the_newest(
    t: Tree,
    id: u64,
    record: Seq<u8>,
    kept: u64,
    a: u64,
    b: u64,
    k: Seq<u8>,
)
    requires
        sorted(t),
        journal::journal_with(t, id, record, kept) is Ok,
    ensures
        ({
            let after = journal::journal_with(t, id, record, kept)->Ok_0;
            let had = if a == id {
                Some(record)
            } else {
                record_of(t, a)
            };
            &&& record_of(after, a) is Some ==> record_of(after, a) == had
            &&& had is Some && record_of(after, a) is None ==> {
                &&& record_of(after, b) is Some ==> a < b
                &&& journaled_ids(after).len() == kept
            }
            &&& journaled_ids(after).finite()
            &&& journaled_ids(after).len() <= kept
            &&& kept > 0 && (forall|x: u64| (#[trigger] record_of(t, x)) is Some ==> x <= id)
                ==> record_of(after, id) == Some(record)
            &&& journal::tx_of(k) is None ==> (after.items.contains_key(k)
                <==> t.items.contains_key(k)) && (t.items.contains_key(k) ==> after.items[k]
                == t.items[k])
        }),
{
    let key = journal::tx_key_of(id);
    let u = tree::put(t, key, record)->Ok_0.1;
    let after = journal::journal_with(t, id, record, kept)->Ok_0;
    lemma_sorted_with(t, key, Item::Value(record));
    let l = cursor::data_in(u);
    let list = journal::records(l);
    let keys = journal::tx_keys(l);
    lemma_keys_of_records(l);
    lemma_journal_records(u);
    let n = if list.len() > kept {
        list.len() - kept
    } else {
        0
    };
    let gone = keys.take(n);
    journal::lemma_dropped(u, gone);
    assert(after == journal::dropped(u, gone)) by {
        if n == 0 {
            assert(gone =~= Seq::<Seq<u8>>::empty());
        }
    }
    journal::law_tx_keys_are_in_order(id, id);
    assert forall|x: u64| #[trigger] record_of(u, x) == (if x == id {
        Some(record)
    } else {
        record_of(t, x)
    }) by {
        journal::law_tx_keys_are_in_order(x, id);
        journal::law_tx_keys_are_in_order(id, x);
        if x != id {
            bytes::lemma_lex_irreflexive(key);
        }
    }
    // A transaction goes just if its record is among the first.
    assert forall|x: u64| #[trigger] record_of(u, x) is Some implies ({
        &&& record_of(after, x) is Some ==> record_of(after, x) == record_of(u, x)
        &&& record_of(after, x) is None <==> exists|i: int|
            0 <= i < n && (#[trigger] list[i]).0 == x
    }) by {
        let kx = journal::tx_key_of(x);
        assert(after.items.contains_key(kx) <==> u.items.contains_key(kx) && !gone.contains(kx));
        if gone.contains(kx) {
            let i = choose|i: int| 0 <= i < gone.len() && gone[i] == kx;
            assert(gone[i] == keys[i]);
            assert(keys[i] == journal::tx_key_of(list[i].0));
            lemma_same_key(list[i].0, x);
            assert(0 <= i < n && list[i].0 == x);
        }
        if exists|i: int| 0 <= i < n && (#[trigger] list[i]).0 == x {
            let i = choose|i: int| 0 <= i < n && (#[trigger] list[i]).0 == x;
            assert(gone[i] == keys[i]);
            assert(gone.contains(kx));
        }
    }
    assert forall|x: u64| (#[trigger] record_of(after, x)) is Some implies record_of(
        u,
        x,
    ) is Some by {
        assert(after.items.contains_key(journal::tx_key_of(x)));
    }
    let rest = Seq::new((list.len() - n) as nat, |i: int| list[n + i].0);
    assert forall|x: u64| journaled_ids(after).contains(x) <==> rest.contains(x) by {
        if record_of(after, x) is Some {
            assert(record_of(u, x) is Some);
            let r = (x, record_of(u, x)->0);
            assert(list.contains(r));
            let i = choose|i: int| 0 <= i < list.len() && list[i] == r;
            if i < n {
                assert(list[i].0 == x);
            } else {
                assert(rest[i - n] == x);
            }
        }
        if rest.contains(x) {
            let j = choose|j: int| 0 <= j < rest.len() && rest[j] == x;
            assert(record_of(u, list[n + j].0) is Some);
            if record_of(after, x) is None {
                let i = choose|i: int| 0 <= i < n && (#[trigger] list[i]).0 == x;
                assert(list[i].0 < list[n + j].0);
            }
        }
    }
    assert(rest.no_duplicates()) by {
        assert forall|i: int, j: int| 0 <= i < rest.len() && 0 <= j < rest.len() && i
            != j implies rest[i] != rest[j] by {
            if i < j {
                assert(list[n + i].0 < list[n + j].0);
            } else {
                assert(list[n + j].0 < list[n + i].0);
            }
        }
    }
    rest.unique_seq_to_set();
    vstd::seq_lib::seq_to_set_is_finite(rest);
    assert(journaled_ids(after) =~= rest.to_set());
    assert(record_of(u, a) is Some && record_of(after, a) is None && record_of(after, b) is Some
        ==> a < b) by {
        if record_of(u, a) is Some && record_of(after, a) is None && record_of(after, b) is Some {
            let i = choose|i: int| 0 <= i < n && (#[trigger] list[i]).0 == a;
            assert(journaled_ids(after).contains(b));
            let j = choose|j: int| 0 <= j < rest.len() && rest[j] == b;
            assert(list[i].0 < list[n + j].0);
        }
    }
    if journal::tx_of(k) is None {
        assert(k != key);
        assert(after.items.contains_key(k) <==> u.items.contains_key(k) && !gone.contains(k));
        if gone.contains(k) {
            let i = choose|i: int| 0 <= i < gone.len() && gone[i] == k;
            assert(gone[i] == keys[i]);
            assert(keys[i] == journal::tx_key_of(list[i].0));
            journal::law_tx_keys_are_in_order(list[i].0, id);
        }
    }
    assert(record_of(u, a) is Some && record_of(after, a) is None ==> n > 0);
    if kept > 0 && (forall|x: u64| (#[trigger] record_of(t, x)) is Some ==> x <= id) {
        if record_of(after, id) is None {
            assert(record_of(u, id) is Some);
            let i = choose|i: int| 0 <= i < n && (#[trigger] list[i]).0 == id;
            let z = list.len() - 1;
            assert(list[i].0 < list[z].0);
            assert(record_of(u, list[z].0) is Some);
        }
    }
}

proof fn lemma_dropped_sorted(t: Tree, keys: Seq<Seq<u8>>)
    requires
        sorted(t),
    ensures
        sorted(journal::dropped(t, keys)),
    decreases keys.len(),
{
    if keys.len() > 0 {
        lemma_dropped_sorted(t, keys.drop_last());
        lemma_sorted_without(journal::dropped(t, keys.drop_last()), keys.last());
    }
}

proof fn lemma_same_key(a: u64, b: u64)
    requires
        journal::tx_key_of(a) == journal::tx_key_of(b),
    ensures
        a == b,
{
    journal::law_tx_keys_are_in_order(a, b);
    journal::law_tx_keys_are_in_order(b, a);
}

/// A committed transaction that is journaled is what a consumer is given who has
/// all before it: its change set, and no other.
pub proof fn law_journaled_transaction_is_replayed(
    root: Tree,
    set: ChangeSetView,
    after: u64,
    limit: nat,
)
    requires
        tree::child_of(root, names::journal_name()) is Ok,
        sorted(tree::child_of(root, names::journal_name())->Ok_0),
        journal::journaled(root, set) is Ok,
        ({
            let journal = tree::child_of(root, names::journal_name())->Ok_0;
            let kept = journal::number_of(
                tree::value_of(journal, names::config_name())->0,
            )->Ok_0;
            &&& kept > 0
            &&& forall|x: u64| (#[trigger] record_of(journal, x)) is Some ==> x <= after
        }),
        after < set.transaction_id,
        limit > 0,
    ensures
        ({
            let now = tree::child_of(
                journal::journaled(root, set)->Ok_0,
                names::journal_name(),
            )->Ok_0;
            journal::replayed(
                journal::records(cursor::data_in(now)),
                after,
                limit,
                None,
            ) == Ok::<Seq<ChangeSetView>, Error>(seq![set])
        }),
{
    let journal = tree::child_of(root, names::journal_name())->Ok_0;
    let kept = journal::number_of(tree::value_of(journal, names::config_name())->0)->Ok_0;
    let now = tree::child_of(
        journal::journaled(root, set)->Ok_0,
        names::journal_name(),
    )->Ok_0;
    let id = set.transaction_id;
    let record = journal::set_record(set);
    assert forall|x: u64| x != id && x > after implies (#[trigger] record_of(now, x)) is None by {
        law_journal_keeps_the_newest(journal, id, record, kept, x, x, Seq::empty());
    }
    law_journal_keeps_the_newest(journal, id, record, kept, id, id, Seq::empty());
    lemma_sorted_with(journal, journal::tx_key_of(id), Item::Value(record));
    let more = tree::put(journal, journal::tx_key_of(id), record)->Ok_0.1;
    let keys = journal::tx_keys(cursor::data_in(more));
    if keys.len() > kept {
        lemma_dropped_sorted(more, keys.take(keys.len() - kept));
    }
    journal::law_journal_reads_what_was_written(set);
    law_readable_journals_are_replayed(now, after, limit, None);
    law_replay_gives_what_came_after(now, after, limit, None);
    let sets = journal::replayed(
        journal::records(cursor::data_in(now)),
        after,
        limit,
        None,
    )->Ok_0;
    assert(record_of(now, id) is Some);
    assert forall|a: int| 0 <= a < sets.len() implies (#[trigger] sets[a]) == set by {
        assert(record_of(now, sets[a].transaction_id) is Some);
    }
    assert(sets.len() == 1) by {
        assert(given(sets, id) || (sets.len() == limit && all_before(sets, id)));
        if sets.len() > 1 {
            assert(sets[0].transaction_id < sets[1].transaction_id);
        }
        if sets.len() > 0 && all_before(sets, id) {
            assert(sets[0].transaction_id < id);
        }
    }
    assert(sets =~= seq![set]);
}

/// What a filter asks for: all changes, unless it says otherwise; and of those
/// that it asks for anyway, the ones in one bucket, the ones whose keys begin
/// with some bytes, the ones whose keys are in a range, its end excluded, and
/// the ones of some operations.
pub proof fn law_filters_narrow(
    f: FilterView,
    c: changes::ChangeView,
    path: Seq<Seq<u8>>,
    prefix: Seq<u8>,
    start: Seq<u8>,
    end: Seq<u8>,
    operations: Seq<changes::ChangeOperation>,
)
    requires
        operations.len() > 0,
    ensures
        changes::asks_for(changes::any_change(), c),
        f.path is None ==> (changes::asks_for(FilterView { path: Some(path), ..f }, c) <==> (
        changes::asks_for(f, c) && c.path == path)),
        f.prefix is None ==> (changes::asks_for(FilterView { prefix: Some(prefix), ..f }, c) <==> (
        changes::asks_for(f, c) && exists|tail: Seq<u8>| c.key == prefix + tail)),
        f.range is None ==> (changes::asks_for(FilterView { range: Some((start, end)), ..f }, c)
            <==> (changes::asks_for(f, c) && !bytes::lex_lt(c.key, start) && bytes::lex_lt(
            c.key,
            end,
        ))),
        f.operations.len() == 0 ==> (changes::asks_for(FilterView { operations, ..f }, c) <==> (
        changes::asks_for(f, c) && operations.contains(c.operation))),
{
    bytes::lemma_lex_total(c.key, start);
    bytes::lemma_lex_irreflexive(start);
    if bytes::lex_lt(c.key, start) && bytes::lex_lt(start, c.key) {
        bytes::lemma_lex_transitive(start, c.key, start);
    }
    if prefix.is_prefix_of(c.key) {
        assert(c.key =~= prefix + c.key.skip(prefix.len() as int));
    }
    assert forall|tail: Seq<u8>| c.key == prefix + tail implies prefix.is_prefix_of(c.key) by {
        assert(c.key.take(prefix.len() as int) =~= prefix);
    }
}

/// What is selected is just what is asked for, in its order: a change that comes
/// behind others is selected behind what is selected of those, or not at all.
pub proof fn law_selection_keeps_order(
    f: FilterView,
    list: Seq<changes::ChangeView>,
    c: changes::ChangeView,
)
    ensures
        changes::selected(f, Seq::empty()) == Seq::<changes::ChangeView>::empty(),
        changes::selected(f, list.push(c)) == (if changes::asks_for(f, c) {
            changes::selected(f, list).push(c)
        } else {
            changes::selected(f, list)
        }),
{
    reveal(Seq::filter);
    assert(list.push(c).drop_last() =~= list);
}

/// A journal is enabled with how many transactions it keeps, unless that is
/// none or its place is taken; what it holds already stays, and nothing else in
/// the database is touched.
pub proof fn law_journal_is_enabled(root: Tree, config: JournalConfig, id: u64, other: Seq<u8>)
    requires
        other != names::journal_name(),
        tree::child_of(root, names::journal_name()) matches Ok(j) ==> !(j.items.contains_key(
            names::config_name(),
        ) && j.items[names::config_name()] is Bucket),
    ensures
        journal::enabled(root, config) is Err <==> config.max_transactions == 0
            || tree::value_of(root, names::journal_name()) is Some,
        journal::enabled(root, config) matches Ok(after) ==> {
            &&& alike(root, after, other)
            &&& tree::child_of(after, names::journal_name()) matches Ok(j)
            &&& tree::value_of(j, names::config_name()) matches Some(s)
            &&& journal::number_of(s) == Ok::<u64, Error>(config.max_transactions)
            &&& record_of(j, id) == match tree::child_of(root, names::journal_name()) {
                Ok(was) => record_of(was, id),
                Err(_) => None,
            }
        },
{
    bytes::lemma_pow256_widths();
    bytes::lemma_be_round_trip(config.max_transactions as nat, 8);
    assert(journal::tx_of(names::config_name()) is None);
    assert(journal::tx_of(journal::tx_key_of(id)) is Some) by {
        bytes::lemma_be_of_len(id as nat, 8);
    }
}

/// Where no journal is enabled, a transaction is not written down; where one
/// is, nothing but the journal is touched.
pub proof fn law_journal_is_apart(root: Tree, set: ChangeSetView, other: Seq<u8>)
    requires
        other != names::journal_name(),
    ensures
        !root.items.contains_key(names::journal_name()) ==> journal::journaled(root, set) == Ok::<
            Tree,
            Error,
        >(root),
        journal::journaled(root, set) matches Ok(after) ==> alike(root, after, other)
            && after.next_int == root.next_int,
{
}

} // verus!
