//! What holds of the operations of a transaction.

use crate::bytes;
use crate::cursor;
use crate::data::DataView;
use crate::db::path;
use crate::db::read::{self, BoundView};
use crate::db::state::{self, Model};
use crate::format::{OperationView, CREATE_BUCKET, DELETE, DELETE_BUCKET, PUT};
use vstd::prelude::*;

verus! {

/// Whether two databases have the same under a path.
pub open spec fn same_bucket(a: Model, b: Model, at: Seq<u8>) -> bool {
    a.contains_key(at) == b.contains_key(at) && (a.contains_key(at) ==> a[at] == b[at])
}

/// A bucket is created, empty, just where there is none yet and the bucket
/// around it is there, whose counter moves on; no other bucket is touched.
pub proof fn law_bucket_is_created_empty(m: Model, parent: Seq<u8>, name: Seq<u8>, other: Seq<u8>)
    requires
        path::is_path(parent),
        name.len() <= u32::MAX,
        other != parent,
        other != path::child_of(parent, name),
    ensures
        ({
            let at = path::child_of(parent, name);
            let r = state::apply_op(m, (CREATE_BUCKET, at, Seq::empty(), Seq::empty()));
            &&& r is Ok <==> !m.contains_key(at) && (parent.len() > 0 ==> m.contains_key(parent))
            &&& r matches Ok(after) ==> {
                &&& after.contains_key(at)
                &&& after[at].next == 0
                &&& after[at].entries == Map::<Seq<u8>, Seq<u8>>::empty()
                &&& same_bucket(m, after, other)
                &&& parent.len() > 0 ==> after.contains_key(parent) && after[parent].entries
                    == m[parent].entries && (m[parent].next < u64::MAX ==> after[parent].next
                    == m[parent].next + 1)
            }
        }),
{
    path::law_child_path_parts(parent, name);
    let at = path::child_of(parent, name);
    bytes::lemma_le_of_len(name.len(), 4);
    assert(at.len() > parent.len());
}

/// A bucket goes with every bucket below it, and with nothing else.
pub proof fn law_bucket_goes_with_all_below(m: Model, at: Seq<u8>, other: Seq<u8>)
    requires
        path::is_path(at),
        path::is_path(other),
    ensures
        ({
            let r = state::apply_op(m, (DELETE_BUCKET, at, Seq::empty(), Seq::empty()));
            &&& r is Ok <==> m.contains_key(at)
            &&& r matches Ok(after) ==> if path::names_of(at).is_prefix_of(path::names_of(other)) {
                !after.contains_key(other)
            } else {
                same_bucket(m, after, other)
            }
        }),
{
    path::law_prefix_is_descendant(at, other);
}

/// A value that is stored is the one under its key, a new key moves the
/// bucket's counter on, and nothing else changes.
pub proof fn law_put_stores_the_value(
    m: Model,
    at: Seq<u8>,
    key: Seq<u8>,
    value: Seq<u8>,
    other: Seq<u8>,
    other_key: Seq<u8>,
)
    requires
        other != at,
        other_key != key,
    ensures
        ({
            let r = state::apply_op(m, (PUT, at, key, value));
            &&& r is Ok <==> m.contains_key(at)
            &&& r matches Ok(after) ==> {
                &&& after.contains_key(at)
                &&& after[at].entries.contains_key(key)
                &&& after[at].entries[key] == value
                &&& after[at].entries.contains_key(other_key) == m[at].entries.contains_key(
                    other_key,
                )
                &&& m[at].entries.contains_key(other_key) ==> after[at].entries[other_key]
                    == m[at].entries[other_key]
                &&& m[at].next < u64::MAX ==> after[at].next == m[at].next
                    + if m[at].entries.contains_key(key) {
                    0int
                } else {
                    1
                }
                &&& same_bucket(m, after, other)
            }
        }),
{
}

/// A key that is deleted was there and is gone, and nothing else changes.
pub proof fn law_delete_takes_the_key(
    m: Model,
    at: Seq<u8>,
    key: Seq<u8>,
    other: Seq<u8>,
    other_key: Seq<u8>,
)
    requires
        other != at,
        other_key != key,
    ensures
        ({
            let r = state::apply_op(m, (DELETE, at, key, Seq::empty()));
            &&& r is Ok <==> m.contains_key(at) && m[at].entries.contains_key(key)
            &&& r matches Ok(after) ==> {
                &&& after.contains_key(at)
                &&& !after[at].entries.contains_key(key)
                &&& after[at].next == m[at].next
                &&& after[at].entries.contains_key(other_key) == m[at].entries.contains_key(
                    other_key,
                )
                &&& m[at].entries.contains_key(other_key) ==> after[at].entries[other_key]
                    == m[at].entries[other_key]
                &&& same_bucket(m, after, other)
            }
        }),
{
}

/// Whether an operation leaves a key of a bucket as it is.
pub open spec fn leaves(op: OperationView, at: Seq<u8>, key: Seq<u8>) -> bool {
    &&& !((op.0 == PUT || op.0 == DELETE) && op.1 == at && op.2 == key)
    &&& !(op.0 == DELETE_BUCKET && op.1.is_prefix_of(at))
}

/// Of the operations of a transaction that all succeed, the last that concerns
/// a key decides what it has.
pub proof fn law_last_operation_decides(m: Model, ops: Seq<OperationView>, n: int, i: int)
    requires
        0 <= i < n <= ops.len(),
        state::applied(m, ops, n).1 is None,
        ops[i].0 == PUT,
        forall|j: int| i < j < n ==> leaves(#[trigger] ops[j], ops[i].1, ops[i].2),
    ensures
        ({
            let after = state::applied(m, ops, n).0;
            &&& after.contains_key(ops[i].1)
            &&& after[ops[i].1].entries.contains_key(ops[i].2)
            &&& after[ops[i].1].entries[ops[i].2] == ops[i].3
        }),
    decreases n,
{
    let before = state::applied(m, ops, n - 1);
    assert(before.1 is None);
    if i < n - 1 {
        law_last_operation_decides(m, ops, n - 1, i);
        assert(leaves(ops[n - 1], ops[i].1, ops[i].2));
        let op = ops[n - 1];
        if op.0 == CREATE_BUCKET && op.1 == ops[i].1 {
            assert(before.0.contains_key(op.1));
        }
    }
}

/// Operations that all succeed leave what none of them concerns.
pub proof fn law_operations_leave_the_rest(
    m: Model,
    ops: Seq<OperationView>,
    n: int,
    at: Seq<u8>,
    key: Seq<u8>,
)
    requires
        0 <= n <= ops.len(),
        m.contains_key(at),
        forall|j: int| 0 <= j < n ==> leaves(#[trigger] ops[j], at, key),
    ensures
        ({
            let after = state::applied(m, ops, n).0;
            &&& after.contains_key(at)
            &&& after[at].entries.contains_key(key) == m[at].entries.contains_key(key)
            &&& m[at].entries.contains_key(key) ==> after[at].entries[key] == m[at].entries[key]
        }),
    decreases n,
{
    if n > 0 {
        law_operations_leave_the_rest(m, ops, n - 1, at, key);
        assert(leaves(ops[n - 1], at, key));
    }
}

/// An operation that fails ends the transaction with what was before it.
pub proof fn law_first_failure_ends(m: Model, ops: Seq<OperationView>, n: int, k: int)
    requires
        0 <= n < k <= ops.len(),
        state::applied(m, ops, n).1 is None,
        state::apply_op(state::applied(m, ops, n).0, ops[n]) is Err,
    ensures
        state::applied(m, ops, k).0 == state::applied(m, ops, n).0,
        state::applied(m, ops, k).1 is Some,
{
    assert(state::applied(m, ops, n + 1).1 is Some);
    state::lemma_applied_stops(m, ops, n + 1, k);
}

/// A key at the end of a range is in it just where the end is taken in, and
/// every key between the ends is.
pub proof fn law_bounds_are_kept(a: Seq<u8>, b: Seq<u8>, k: Seq<u8>)
    ensures
        read::within_bounds(BoundView::Included(a), BoundView::Unbounded, k)
            <==> !bytes::lex_lt(k, a),
        read::within_bounds(BoundView::Excluded(a), BoundView::Unbounded, k)
            <==> !bytes::lex_lt(k, a) && k != a,
        read::within_bounds(BoundView::Unbounded, BoundView::Included(b), k)
            <==> !bytes::lex_lt(b, k),
        read::within_bounds(BoundView::Unbounded, BoundView::Excluded(b), k)
            <==> !bytes::lex_lt(b, k) && k != b,
        read::within_bounds(BoundView::Unbounded, BoundView::Unbounded, k),
        read::within_bounds(BoundView::Included(a), BoundView::Excluded(b), k)
            <==> !bytes::lex_lt(k, a) && bytes::lex_lt(k, b),
{
    bytes::lemma_lex_total(a, k);
    bytes::lemma_lex_total(b, k);
}

/// Every entry is among the pairs or among the buckets that are handed out, and
/// both come in the order of the entries.
pub proof fn law_entries_are_pairs_or_buckets(s: Seq<DataView>)
    ensures
        cursor::pairs_in(s).len() + cursor::buckets_in(s).len() == s.len(),
        forall|i: int|
            0 <= i < s.len() ==> match #[trigger] s[i] {
                DataView::KeyValue(key, value) => cursor::pairs_in(s).contains((key, value)),
                DataView::Bucket(name) => cursor::buckets_in(s).contains(name),
            },
        cursor::ordered(s) ==> forall|i: int, j: int|
            0 <= i < j < cursor::pairs_in(s).len() ==> bytes::lex_le(
                (#[trigger] cursor::pairs_in(s)[i]).0,
                (#[trigger] cursor::pairs_in(s)[j]).0,
            ),
        cursor::ordered(s) ==> forall|i: int, j: int|
            0 <= i < j < cursor::buckets_in(s).len() ==> bytes::lex_le(
                #[trigger] cursor::buckets_in(s)[i],
                #[trigger] cursor::buckets_in(s)[j],
            ),
    decreases s.len(),
{
    if s.len() > 0 {
        let rest = s.drop_first();
        law_entries_are_pairs_or_buckets(rest);
        lemma_all_after(s, s[0].key());
        let p = cursor::pairs_in(s);
        let b = cursor::buckets_in(s);
        let rp = cursor::pairs_in(rest);
        let rb = cursor::buckets_in(rest);
        let dp = p.len() - rp.len();
        let db = b.len() - rb.len();
        assert forall|i: int| 0 <= i < rp.len() implies #[trigger] rp[i] == p[i + dp] by {}
        assert forall|i: int| 0 <= i < rb.len() implies #[trigger] rb[i] == b[i + db] by {}
        assert forall|i: int| 0 <= i < s.len() implies match #[trigger] s[i] {
            DataView::KeyValue(key, value) => p.contains((key, value)),
            DataView::Bucket(name) => b.contains(name),
        } by {
            if i > 0 {
                assert(rest[i - 1] == s[i]);
                match s[i] {
                    DataView::KeyValue(key, value) => {
                        let j = choose|j: int| 0 <= j < rp.len() && rp[j] == (key, value);
                        assert(p[j + dp] == (key, value));
                    },
                    DataView::Bucket(name) => {
                        let j = choose|j: int| 0 <= j < rb.len() && rb[j] == name;
                        assert(b[j + db] == name);
                    },
                }
            } else {
                match s[0] {
                    DataView::KeyValue(key, value) => {
                        assert(p[0] == (key, value));
                    },
                    DataView::Bucket(name) => {
                        assert(b[0] == name);
                    },
                }
            }
        }
        if cursor::ordered(s) {
            assert(cursor::ordered(rest)) by {
                assert forall|i: int, j: int| 0 <= i < j < rest.len() implies bytes::lex_le(
                    (#[trigger] rest[i]).key(),
                    (#[trigger] rest[j]).key(),
                ) by {
                    assert(rest[i] == s[i + 1] && rest[j] == s[j + 1]);
                }
            }
            assert forall|i: int, j: int| 0 <= i < j < p.len() implies bytes::lex_le(
                (#[trigger] p[i]).0,
                (#[trigger] p[j]).0,
            ) by {
                if i >= dp {
                    assert(rp[i - dp] == p[i] && rp[j - dp] == p[j]);
                } else {
                    assert(p[0] == (s[0].key(), s[0]->KeyValue_1));
                }
            }
            assert forall|i: int, j: int| 0 <= i < j < b.len() implies bytes::lex_le(
                #[trigger] b[i],
                #[trigger] b[j],
            ) by {
                if i >= db {
                    assert(rb[i - db] == b[i] && rb[j - db] == b[j]);
                }
            }
        }
    }
}

/// Whether every entry's key comes after some key, or is it.
spec fn all_after(s: Seq<DataView>, key: Seq<u8>) -> bool {
    forall|i: int| 0 <= i < s.len() ==> bytes::lex_le(key, (#[trigger] s[i]).key())
}

proof fn lemma_all_after(s: Seq<DataView>, key: Seq<u8>)
    ensures
        all_after(s, key) ==> (forall|i: int|
            0 <= i < cursor::pairs_in(s).len() ==> bytes::lex_le(
                key,
                (#[trigger] cursor::pairs_in(s)[i]).0,
            )) && (forall|i: int|
            0 <= i < cursor::buckets_in(s).len() ==> bytes::lex_le(
                key,
                #[trigger] cursor::buckets_in(s)[i],
            )),
        s.len() > 0 && cursor::ordered(s) ==> all_after(s, s[0].key()),
    decreases s.len(),
{
    if s.len() > 0 {
        let rest = s.drop_first();
        lemma_all_after(rest, key);
        if all_after(s, key) {
            assert(all_after(rest, key)) by {
                assert forall|i: int| 0 <= i < rest.len() implies bytes::lex_le(
                    key,
                    (#[trigger] rest[i]).key(),
                ) by {
                    assert(rest[i] == s[i + 1]);
                }
            }
            assert(bytes::lex_le(key, s[0].key()));
            let dp = cursor::pairs_in(s).len() - cursor::pairs_in(rest).len();
            let db = cursor::buckets_in(s).len() - cursor::buckets_in(rest).len();
            assert forall|i: int| 0 <= i < cursor::pairs_in(s).len() implies bytes::lex_le(
                key,
                (#[trigger] cursor::pairs_in(s)[i]).0,
            ) by {
                if i >= dp {
                    assert(cursor::pairs_in(s)[i] == cursor::pairs_in(rest)[i - dp]);
                }
            }
            assert forall|i: int| 0 <= i < cursor::buckets_in(s).len() implies bytes::lex_le(
                key,
                #[trigger] cursor::buckets_in(s)[i],
            ) by {
                if i >= db {
                    assert(cursor::buckets_in(s)[i] == cursor::buckets_in(rest)[i - db]);
                }
            }
        }
    }
}

} // verus!
