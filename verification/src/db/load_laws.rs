//! What holds of what is loaded from a file.

use crate::bytes;
use crate::db::load::{self, Loaded, PAGE_SIZE};
use crate::db::path;
use crate::db::state::Model;
use crate::error::Error;
use crate::page::{self, Meta, RecordView};
use vstd::prelude::*;

verus! {

/// Whether a database has what a record stands for.
pub open spec fn has(m: Model, what: Loaded) -> bool {
    match what {
        Loaded::Nothing => true,
        Loaded::Bucket { at, next } => m.contains_key(at) && m[at].next == next,
        Loaded::Entry { at, key, value } => m.contains_key(at) && m[at].entries.contains_key(key)
            && m[at].entries[key] == value,
    }
}

/// What the record at `i` of a file stands for.
pub open spec fn meaning(recs: Seq<RecordView>, i: int) -> Loaded {
    load::loaded_of(recs[i], recs.len() == 1)->Ok_0
}

/// Whether a bucket is there because of one of the first `n` records.
pub open spec fn bucket_told(recs: Seq<RecordView>, n: int, at: Seq<u8>) -> bool {
    exists|i: int|
        0 <= i < n && (#[trigger] meaning(recs, i) matches Loaded::Bucket { at: a, .. } && a == at)
}

/// Whether an entry is there because of one of the first `n` records.
pub open spec fn entry_told(recs: Seq<RecordView>, n: int, at: Seq<u8>, key: Seq<u8>) -> bool {
    exists|i: int|
        0 <= i < n && (#[trigger] meaning(recs, i) matches Loaded::Entry { at: a, key: k, .. } && a
            == at && k == key)
}

/// Every record is in the database, and nothing else is.
proof fn lemma_placed_all(recs: Seq<RecordView>, n: int)
    requires
        0 <= n <= recs.len(),
        load::placed(recs, n) is Ok,
    ensures
        ({
            let m = load::placed(recs, n)->Ok_0;
            &&& forall|i: int| 0 <= i < n ==> has(m, #[trigger] meaning(recs, i))
            &&& forall|at: Seq<u8>| #[trigger] m.contains_key(at) ==> bucket_told(recs, n, at)
            &&& forall|at: Seq<u8>, key: Seq<u8>|
                m.contains_key(at) && #[trigger] m[at].entries.contains_key(key) ==> entry_told(
                    recs,
                    n,
                    at,
                    key,
                )
        }),
    decreases n,
{
    if n > 0 {
        lemma_placed_all(recs, n - 1);
        let before = load::placed(recs, n - 1)->Ok_0;
        let m = load::placed(recs, n)->Ok_0;
        let what = meaning(recs, n - 1);
        assert(load::place(before, what) == Ok::<Model, Error>(m));
        assert forall|i: int| 0 <= i < n implies has(m, #[trigger] meaning(recs, i)) by {
            if i < n - 1 {
                assert(has(before, meaning(recs, i)));
            }
        }
        assert forall|at: Seq<u8>| #[trigger] m.contains_key(at) implies bucket_told(
            recs,
            n,
            at,
        ) by {
            if before.contains_key(at) {
                let i = choose|i: int|
                    0 <= i < n - 1 && (#[trigger] meaning(recs, i) matches Loaded::Bucket {
                        at: a,
                        ..
                    } && a == at);
                assert(meaning(recs, i) is Bucket);
            } else {
                assert(meaning(recs, n - 1) is Bucket);
            }
        }
        assert forall|at: Seq<u8>, key: Seq<u8>|
            m.contains_key(at) && #[trigger] m[at].entries.contains_key(key) implies entry_told(
            recs,
            n,
            at,
            key,
        ) by {
            if before.contains_key(at) && before[at].entries.contains_key(key) {
                let i = choose|i: int|
                    0 <= i < n - 1 && (#[trigger] meaning(recs, i) matches Loaded::Entry {
                        at: a,
                        key: k,
                        ..
                    } && a == at && k == key);
                assert(meaning(recs, i) is Entry);
            } else {
                assert(meaning(recs, n - 1) is Entry);
            }
        }
    }
}

/// What is loaded from a file is all that its records say and nothing else; the
/// records are in strict order, every bucket is in one that is there, and no key
/// is also the name of a bucket.
pub proof fn law_loaded_database_is_sound(recs: Seq<RecordView>, m: Model)
    requires
        load::model_of(recs) == Ok::<Model, Error>(m),
    ensures
        forall|i: int, j: int|
            0 <= i < j < recs.len() ==> bytes::lex_lt(
                (#[trigger] recs[i]).key,
                (#[trigger] recs[j]).key,
            ),
        forall|i: int|
            0 <= i < recs.len() ==> load::loaded_of(#[trigger] recs[i], recs.len() == 1) is Ok,
        forall|i: int| 0 <= i < recs.len() ==> has(m, #[trigger] meaning(recs, i)),
        forall|at: Seq<u8>| #[trigger]
            m.contains_key(at) ==> bucket_told(recs, recs.len() as int, at) && (path::parent_of(
                at,
            ) matches Some(parent) && (parent.len() == 0 || m.contains_key(parent))),
        forall|at: Seq<u8>, key: Seq<u8>|
            m.contains_key(at) && #[trigger] m[at].entries.contains_key(key) ==> entry_told(
                recs,
                recs.len() as int,
                at,
                key,
            ) && !m.contains_key(path::child_of(at, key)),
{
    load::lemma_checked_order(recs, recs.len() as int);
    lemma_placed_all(recs, recs.len() as int);
}

/// Of the two meta pages the one of the later transaction counts, as far as it
/// is valid, and its pages are all in the file.
pub proof fn law_later_meta_counts(image: Seq<u8>, meta: Meta, m: Model)
    requires
        load::loaded(image) == Ok::<(Meta, Model), Error>((meta, m)),
    ensures
        ({
            let first = page::meta_of(image.subrange(0, PAGE_SIZE as int));
            let second = page::meta_of(image.subrange(PAGE_SIZE as int, 2 * PAGE_SIZE));
            &&& first == Ok::<Meta, Error>(meta) || second == Ok::<Meta, Error>(meta)
            &&& first matches Ok(other) ==> other.txid <= meta.txid
            &&& second matches Ok(other) ==> other.txid <= meta.txid
        }),
        meta.page_size == PAGE_SIZE,
        meta.high_water * PAGE_SIZE <= image.len(),
{
}

/// A page of the tree that is visited is a page of the file, says itself which
/// it is, and was not visited before, nor were those that go with it.
pub proof fn law_pages_are_visited_once(
    image: Seq<u8>,
    meta: Meta,
    page: u64,
    visited: Set<u64>,
    p: u64,
)
    requires
        load::node_at(image, meta, page, visited) is Ok,
    ensures
        ({
            let node = load::node_at(image, meta, page, visited)->Ok_0;
            &&& 2 <= page
            &&& page + node.span <= meta.high_water
            &&& node.page == page
            &&& p == page || page <= p < page + node.span ==> !visited.contains(p)
        }),
{
}

} // verus!
