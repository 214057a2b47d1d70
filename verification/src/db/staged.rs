//! What staged operations leave of buckets and keys, read off the operations
//! themselves: the last that speaks of a bucket or a key decides.

use crate::bytes::{same, starts_with};
use crate::db::load::find_bucket;
use crate::db::path;
use crate::db::read::ReadTransaction;
use crate::db::state::{self, Model};
use crate::format::{Operation, OperationView, CREATE_BUCKET, DELETE, DELETE_BUCKET, PUT};
use vstd::prelude::*;

verus! {

/// Whether an operation empties the bucket at `at`: it is created, or deleted
/// with one above it.
pub open spec fn settles(op: OperationView, at: Seq<u8>) -> bool {
    ||| op.0 == DELETE_BUCKET && op.1.is_prefix_of(at)
    ||| op.0 == CREATE_BUCKET && op.1 == at
}

/// Whether there is a bucket at `at` after the first `n` operations.
pub open spec fn bucket_after(m: Model, ops: Seq<OperationView>, n: int, at: Seq<u8>) -> bool
    decreases n,
{
    if n <= 0 {
        m.contains_key(at)
    } else if settles(ops[n - 1], at) {
        ops[n - 1].0 == CREATE_BUCKET
    } else {
        bucket_after(m, ops, n - 1, at)
    }
}

/// Whether a bucket has a key after the first `n` operations.
pub open spec fn key_after(
    m: Model,
    ops: Seq<OperationView>,
    n: int,
    at: Seq<u8>,
    key: Seq<u8>,
) -> bool
    decreases n,
{
    if n <= 0 {
        m.contains_key(at) && m[at].entries.contains_key(key)
    } else {
        let op = ops[n - 1];
        if settles(op, at) {
            false
        } else if op.1 == at && op.2 == key && (op.0 == PUT || op.0 == DELETE) {
            op.0 == PUT
        } else {
            key_after(m, ops, n - 1, at, key)
        }
    }
}

/// A counter, raised; it stays at its largest value.
pub open spec fn raised(n: u64) -> u64 {
    if n == u64::MAX {
        n
    } else {
        (n + 1) as u64
    }
}

/// The counter of a bucket after the first `n` operations: every new key and
/// every bucket created in it raises it.
pub open spec fn next_after(m: Model, ops: Seq<OperationView>, n: int, at: Seq<u8>) -> u64
    decreases n,
{
    if n <= 0 {
        if m.contains_key(at) {
            m[at].next
        } else {
            0
        }
    } else {
        let op = ops[n - 1];
        let next = next_after(m, ops, n - 1, at);
        if settles(op, at) {
            0
        } else if op.0 == CREATE_BUCKET && path::parent_of(op.1) == Some(at) {
            raised(next)
        } else if op.0 == PUT && op.1 == at && !key_after(m, ops, n - 1, at, op.2) {
            raised(next)
        } else {
            next
        }
    }
}

/// Where operations can be applied, what is read off them is what they leave:
/// the buckets, their keys and their counters.
pub proof fn law_staged_is_what_is_applied(
    m: Model,
    ops: Seq<OperationView>,
    n: int,
    at: Seq<u8>,
    key: Seq<u8>,
)
    requires
        0 <= n <= ops.len(),
        state::applied(m, ops, n).1 is None,
    ensures
        ({
            let after = state::applied(m, ops, n).0;
            &&& bucket_after(m, ops, n, at) == after.contains_key(at)
            &&& key_after(m, ops, n, at, key) == (after.contains_key(at)
                && after[at].entries.contains_key(key))
            &&& after.contains_key(at) && at.len() > 0 ==> next_after(m, ops, n, at)
                == after[at].next
        }),
    decreases n,
{
    if n > 0 {
        let op = ops[n - 1];
        law_staged_is_what_is_applied(m, ops, n - 1, at, key);
        law_staged_is_what_is_applied(m, ops, n - 1, at, op.2);
        let before = state::applied(m, ops, n - 1).0;
        let after = state::applied(m, ops, n).0;
        assert(state::apply_op(before, op) == Ok::<Model, crate::error::Error>(after));
    }
}

/// Whether an operation creates or deletes a bucket.
pub open spec fn about_buckets(op: OperationView) -> bool {
    op.0 == CREATE_BUCKET || op.0 == DELETE_BUCKET
}

/// Whether a list tells, in order, which of the first `n` operations create or
/// delete a bucket.
pub open spec fn marked(list: Seq<usize>, ops: Seq<OperationView>, n: int) -> bool {
    &&& forall|j: int| 0 <= j < list.len() ==> (#[trigger] list[j]) < n
    &&& forall|i: int, j: int| 0 <= i < j < list.len() ==> list[i] < list[j]
    &&& forall|i: int|
        0 <= i < n && about_buckets(#[trigger] ops[i]) ==> exists|j: int|
            0 <= j < list.len() && #[trigger] list[j] == i
}

/// A list stays right when an operation follows it that is noted if it has to
/// be.
pub proof fn lemma_marked_grows(list: Seq<usize>, more: Seq<usize>, ops: Seq<OperationView>, n: int)
    requires
        0 <= n < ops.len(),
        n <= usize::MAX,
        marked(list, ops, n),
        more == if about_buckets(ops[n]) {
            list.push(n as usize)
        } else {
            list
        },
    ensures
        marked(more, ops, n + 1),
{
    assert forall|i: int| 0 <= i < n + 1 && about_buckets(#[trigger] ops[i]) implies exists|j: int|
        0 <= j < more.len() && #[trigger] more[j] == i by {
        if i == n {
            assert(more[list.len() as int] == i);
        } else {
            let j = choose|j: int| 0 <= j < list.len() && #[trigger] list[j] == i;
            assert(more[j] == i);
        }
    }
}

/// Only the first `n` operations matter to what a list tells of them.
pub proof fn lemma_marked_prefix(
    list: Seq<usize>,
    ops: Seq<OperationView>,
    other: Seq<OperationView>,
    n: int,
)
    requires
        marked(list, ops, n),
        forall|i: int| 0 <= i < n ==> ops[i] == other[i],
    ensures
        marked(list, other, n),
{
    assert forall|i: int| 0 <= i < n && about_buckets(#[trigger] other[i]) implies exists|j: int|
        0 <= j < list.len() && #[trigger] list[j] == i by {
        assert(about_buckets(ops[i]));
    }
}

proof fn lemma_skip(m: Model, ops: Seq<OperationView>, lo: int, hi: int, at: Seq<u8>)
    requires
        0 <= lo <= hi,
        forall|i: int| lo <= i < hi ==> !about_buckets(#[trigger] ops[i]),
    ensures
        bucket_after(m, ops, hi, at) == bucket_after(m, ops, lo, at),
    decreases hi - lo,
{
    if lo < hi {
        assert(!about_buckets(ops[hi - 1]));
        lemma_skip(m, ops, lo, hi - 1, at);
    }
}

/// Whether there is a bucket at `at` after the first `n` operations.
pub fn exists_after(
    tx: ReadTransaction<'_>,
    operations: &[Operation],
    list: &[usize],
    n: usize,
    at: &[u8],
) -> (r: bool)
    requires
        tx.wf(),
        n <= operations@.len(),
        marked(list@, crate::format::views_of(operations@), n as int),
    ensures
        r == bucket_after(tx.model(), crate::format::views_of(operations@), n as int, at@),
{
    let ghost m = tx.model();
    let ghost ops = crate::format::views_of(operations@);
    let ghost mut hi = n as int;
    let mut j: usize = list.len();
    while j > 0
        invariant
            j <= list@.len(),
            n <= operations@.len(),
            m == tx.model(),
            ops == crate::format::views_of(operations@),
            marked(list@, ops, n as int),
            hi == (if j < list@.len() {
                list@[j as int] as int
            } else {
                n as int
            }),
            0 <= hi <= n,
            bucket_after(m, ops, n as int, at@) == bucket_after(m, ops, hi, at@),
        decreases j,
    {
        let k: usize = list[j - 1];
        assert(list@[j - 1] < n);
        proof {
            assert forall|i: int| k + 1 <= i < hi implies !about_buckets(#[trigger] ops[i]) by {
                if about_buckets(ops[i]) {
                    let q = choose|q: int| 0 <= q < list@.len() && #[trigger] list@[q] == i;
                    assert(j - 1 < q);
                    assert(q < j);
                }
            }
            assert(k < hi);
            lemma_skip(m, ops, k + 1, hi, at@);
        }
        let op: &Operation = &operations[k];
        assert(ops[k as int] == (op.0, op.1@, op.2@, op.3@));
        if op.0 == DELETE_BUCKET && starts_with(at, &op.1) {
            return false;
        }
        if op.0 == CREATE_BUCKET && same(&op.1, at) {
            return true;
        }
        proof {
            hi = k as int;
        }
        j = j - 1;
    }
    proof {
        assert forall|i: int| 0 <= i < hi implies !about_buckets(#[trigger] ops[i]) by {
            if about_buckets(ops[i]) {
                let q = choose|q: int| 0 <= q < list@.len() && #[trigger] list@[q] == i;
                assert(q >= 0);
                assert(list@[0] <= list@[q]);
            }
        }
        lemma_skip(m, ops, 0, hi, at@);
    }
    match find_bucket(tx.image, &tx.state.buckets, at) {
        Ok(_) => true,
        Err(_) => false,
    }
}

} // verus!
