//! Turning staged operations into the pages that commit them.
//!
//! A commit writes a new tree behind the committed pages, and then one meta
//! page, in the slot that the current one does not stand in.

use crate::assoc;
use crate::bytemap::ByteMap;
use crate::bytes::owned;
use crate::db::load::{self, load_state, BucketIndex, State, PAGE_SIZE};
use crate::db::read::ReadTransaction;
use crate::db::staged::{self, exists_after};
use crate::db::state::{self, Model, OwnedBucket, OwnedState};
use crate::db::write::WriteTransaction;
use crate::error::Error;
use crate::format::{Operation, OperationView, CREATE_BUCKET, DELETE, DELETE_BUCKET, PUT};
use crate::page::{self, Meta, Record, RecordView};
use crate::tree::{self, build_tree, BuiltTree, TreeView};
use vstd::prelude::*;

verus! {

/// Copies a loaded database into memory.
pub fn from_state(tx: ReadTransaction<'_>) -> (r: OwnedState)
    requires
        tx.wf(),
    ensures
        r.wf(),
        r.model() == tx.model(),
{
    let ghost list = load::bucket_list(tx.image@, tx.state.buckets@);
    let mut owned_state: OwnedState = OwnedState::new();
    let mut i: usize = 0;
    assert(list.take(0) =~= Seq::<(Seq<u8>, state::BucketModel)>::empty());
    while i < tx.state.buckets.len()
        invariant
            i <= tx.state.buckets@.len(),
            tx.wf(),
            list == load::bucket_list(tx.image@, tx.state.buckets@),
            owned_state.wf(),
            owned_state.model() == assoc::assoc(list.take(i as int)),
        decreases tx.state.buckets@.len() - i,
    {
        let bucket: &BucketIndex = &tx.state.buckets[i];
        assert(tx.state.buckets@[i as int].wf(tx.image@));
        let entries: ByteMap<Vec<u8>> = copy_entries(tx.image, bucket);
        let ghost was = owned_state.model();
        let ghost before = owned_state.buckets@;
        let new: OwnedBucket = OwnedBucket { next: bucket.next, entries };
        let ghost model = new.model();
        let _before: Option<OwnedBucket> = owned_state.buckets.insert(
            owned(bucket.at.get(tx.image)),
            new,
        );
        proof {
            let at = bucket.at.of(tx.image@);
            assert(model == bucket.model(tx.image@));
            assert(owned_state.model() =~= was.insert(at, model));
            assert(list.take(i + 1).drop_last() =~= list.take(i as int));
            assert(list.take(i + 1).last() == (at, model));
        }
        i = i + 1;
    }
    assert(list.take(i as int) =~= list);
    owned_state
}

/// Copies the entries of a bucket into memory.
fn copy_entries(image: &[u8], bucket: &BucketIndex) -> (r: ByteMap<Vec<u8>>)
    requires
        bucket.wf(image@),
    ensures
        r.wf(),
        state::values_view(r@) == bucket.model(image@).entries,
{
    let ghost list = load::entry_list(image@, bucket.entries@);
    let mut out: ByteMap<Vec<u8>> = ByteMap::new();
    let mut i: usize = 0;
    proof {
        assert(list.take(0) =~= Seq::<(Seq<u8>, Seq<u8>)>::empty());
        assert(state::values_view(out@) =~= Map::<Seq<u8>, Seq<u8>>::empty());
    }
    while i < bucket.entries.len()
        invariant
            i <= bucket.entries@.len(),
            bucket.wf(image@),
            list == load::entry_list(image@, bucket.entries@),
            out.wf(),
            state::values_view(out@) == assoc::assoc(list.take(i as int)),
        decreases bucket.entries@.len() - i,
    {
        assert(load::slot_within(bucket.entries@[i as int], image@.len() as int));
        let ghost was = state::values_view(out@);
        let value: Vec<u8> = owned(bucket.entries[i].1.get(image));
        let ghost v = value@;
        let _before: Option<Vec<u8>> = out.insert(owned(bucket.entries[i].0.get(image)), value);
        proof {
            let key = bucket.entries@[i as int].0.of(image@);
            assert(state::values_view(out@) =~= was.insert(key, v));
            assert(list.take(i + 1).drop_last() =~= list.take(i as int));
            assert(list.take(i + 1).last() == (key, v));
        }
        i = i + 1;
    }
    assert(list.take(i as int) =~= list);
    out
}

/// Whether the first `n` operations each find or miss their bucket as they
/// should.
pub open spec fn validated(m: Model, ops: Seq<OperationView>, n: int) -> Result<(), Error>
    decreases n,
{
    if n <= 0 {
        Ok(())
    } else {
        match validated(m, ops, n - 1) {
            Err(e) => Err(e),
            Ok(_) => {
                let op = ops[n - 1];
                let exists = staged::bucket_after(m, ops, n - 1, op.1);
                if op.0 == CREATE_BUCKET {
                    if exists {
                        Err(Error::BucketExists)
                    } else {
                        Ok(())
                    }
                } else if op.0 == DELETE_BUCKET || op.0 == PUT || op.0 == DELETE {
                    if exists {
                        Ok(())
                    } else {
                        Err(Error::BucketNotFound)
                    }
                } else {
                    Err(Error::Corrupt("unknown staged operation"))
                }
            },
        }
    }
}

proof fn lemma_validated_stops(m: Model, ops: Seq<OperationView>, n: int, k: int)
    requires
        0 <= n <= k,
        validated(m, ops, n) is Err,
    ensures
        validated(m, ops, k) == validated(m, ops, n),
    decreases k,
{
    if n < k {
        lemma_validated_stops(m, ops, n, k - 1);
    }
}

/// Checks that operations find their buckets.
pub fn validate_operations(tx: ReadTransaction<'_>, operations: &[Operation]) -> (r: Result<
    (),
    Error,
>)
    requires
        tx.wf(),
    ensures
        r == validated(
            tx.model(),
            crate::format::views_of(operations@),
            operations@.len() as int,
        ),
{
    let ghost m = tx.model();
    let ghost ops = crate::format::views_of(operations@);
    let mut list: Vec<usize> = Vec::new();
    let mut i: usize = 0;
    while i < operations.len()
        invariant
            i <= operations@.len(),
            tx.wf(),
            m == tx.model(),
            ops == crate::format::views_of(operations@),
            staged::marked(list@, ops, i as int),
            validated(m, ops, i as int) == Ok::<(), Error>(()),
        decreases operations@.len() - i,
    {
        let op: &Operation = &operations[i];
        assert(ops[i as int] == (op.0, op.1@, op.2@, op.3@));
        let ghost n = i as int;
        let exists: bool = exists_after(tx, operations, &list, i, &op.1);
        let kind: u8 = op.0;
        let ghost was = list@;
        let verdict: Result<(), Error> = if kind == CREATE_BUCKET {
            if exists {
                Err(Error::BucketExists)
            } else {
                Ok(())
            }
        } else if kind == DELETE_BUCKET || kind == PUT || kind == DELETE {
            if exists {
                Ok(())
            } else {
                Err(Error::BucketNotFound)
            }
        } else {
            Err(Error::Corrupt("unknown staged operation"))
        };
        if verdict.is_err() {
            proof {
                lemma_validated_stops(m, ops, n + 1, ops.len() as int);
            }
            return verdict;
        }
        if kind == CREATE_BUCKET || kind == DELETE_BUCKET {
            list.push(i);
        }
        proof {
            staged::lemma_marked_grows(was, list@, ops, n);
        }
        i = i + 1;
    }
    Ok(())
}

/// The pages of a commit: those of the new tree, each with its offset in the
/// file; then, once they are durable, the meta page.
#[derive(Debug)]
pub struct Commit {
    pub meta: Meta,
    pub length: u64,
    pub writes: Vec<(u64, Vec<u8>)>,
    pub meta_offset: u64,
    pub meta_page: Vec<u8>,
}

/// The offsets of some pages.
pub open spec fn offsets(pages: Seq<(u64, Seq<u8>)>, page_size: int) -> Seq<(u64, Seq<u8>)> {
    pages.map_values(|p: (u64, Seq<u8>)| ((p.0 * page_size) as u64, p.1))
}

impl Commit {
    /// Whether this is the commit of a tree, as the next transaction after
    /// `before`.
    pub open spec fn publishes(self, t: TreeView, before: Meta) -> bool {
        &&& self.meta == Meta {
            page_size: before.page_size,
            txid: (before.txid + 1) as u64,
            root: t.root,
            high_water: t.high_water,
            freelist: 0,
        }
        &&& before.txid < u64::MAX
        &&& self.length == t.high_water * before.page_size
        &&& tree::pages_view(self.writes@) == offsets(t.pages, before.page_size as int)
        &&& self.meta_offset == (self.meta.txid % 2) * before.page_size
        &&& self.meta_page@ == page::meta_bytes(self.meta)
    }
}

/// Whether `e` is why a database cannot be packed behind `before`: a path, a
/// page or the transaction number does not fit, or no tree holds its records.
pub open spec fn cannot_pack(m: Model, before: Meta, e: Error) -> bool {
    ||| e == Error::TooLarge && (before.txid == u64::MAX || !state::paths_fit(m))
    ||| exists|records: Seq<RecordView>| #[trigger]
        state::records_match(records, m) && !tree::has_duplicate(records) && match tree::built(
            records,
            before.page_size as int,
            before.high_water,
        ) {
            Err(f) => e == f,
            Ok(t) => e == Error::TooLarge && t.high_water * before.page_size > u64::MAX,
        }
}

/// Whether a commit packs a database behind `before`.
pub open spec fn packs(c: Commit, m: Model, before: Meta) -> bool {
    exists|records: Seq<RecordView>| #[trigger]
        state::records_match(records, m) && !tree::has_duplicate(records) && match tree::built(
            records,
            before.page_size as int,
            before.high_water,
        ) {
            Err(_) => false,
            Ok(t) => c.publishes(t, before),
        }
}

/// Packs a database into the pages that commit it behind `before`.
pub fn pack(owned_state: &OwnedState, before: Meta) -> (r: Result<Commit, Error>)
    requires
        owned_state.wf(),
    ensures
        match r {
            Ok(c) => state::paths_fit(owned_state.model()) && packs(
                c,
                owned_state.model(),
                before,
            ),
            Err(e) => cannot_pack(owned_state.model(), before, e),
        },
{
    let ghost m = owned_state.model();
    let txid: u64 = match before.txid.checked_add(1) {
        Some(txid) => txid,
        None => return Err(Error::TooLarge),
    };
    let records: Vec<Record> = match owned_state.records() {
        Ok(records) => records,
        Err(e) => return Err(e),
    };
    let ghost recs = tree::records_view(records@);
    assert(state::records_match(recs, m));
    let built: BuiltTree = match build_tree(&records, before.page_size as usize, before.high_water) {
        Ok(built) => built,
        Err(e) => return Err(e),
    };
    let ghost t = built@;
    let meta: Meta = Meta {
        page_size: before.page_size,
        txid,
        root: built.root,
        high_water: built.high_water,
        freelist: 0,
    };
    let ps: u64 = before.page_size as u64;
    let length: u64 = match built.high_water.checked_mul(ps) {
        Some(length) => length,
        None => return Err(Error::TooLarge),
    };
    let meta_page: Vec<u8> = match meta.encode() {
        Ok(page) => page,
        Err(e) => return Err(e),
    };
    proof {
        tree::law_tree_stays_between(
            tree::in_key_order(recs),
            before.page_size as int,
            before.high_water,
        );
    }
    let writes: Vec<(u64, Vec<u8>)> = place_pages(built.pages, ps, built.high_water);
    let slot: u64 = txid % 2;
    Ok(Commit { meta, length, writes, meta_offset: slot * ps, meta_page })
}

/// Gives pages their offsets in the file.
fn place_pages(pages: Vec<(u64, Vec<u8>)>, page_size: u64, high_water: u64) -> (r: Vec<
    (u64, Vec<u8>),
>)
    requires
        high_water * page_size <= u64::MAX,
        forall|i: int| 0 <= i < pages@.len() ==> (#[trigger] tree::pages_view(pages@)[i]).0
            < high_water,
    ensures
        tree::pages_view(r@) == offsets(tree::pages_view(pages@), page_size as int),
{
    let ghost views = tree::pages_view(pages@);
    let ghost want = offsets(views, page_size as int);
    let mut out: Vec<(u64, Vec<u8>)> = Vec::new();
    let mut i: usize = 0;
    while i < pages.len()
        invariant
            i <= pages@.len(),
            high_water * page_size <= u64::MAX,
            views == tree::pages_view(pages@),
            want == offsets(views, page_size as int),
            forall|i: int| 0 <= i < pages@.len() ==> (#[trigger] views[i]).0 < high_water,
            out@.len() == i,
            forall|j: int| 0 <= j < i ==> #[trigger] tree::pages_view(out@)[j] == want[j],
        decreases pages@.len() - i,
    {
        let ghost was = tree::pages_view(out@);
        assert(views[i as int] == (pages@[i as int].0, pages@[i as int].1@));
        proof {
            load::lemma_page_inside(
                pages@[i as int].0 as int,
                high_water as int,
                page_size as int,
            );
        }
        let entry: (u64, Vec<u8>) = (pages[i].0 * page_size, owned(&pages[i].1));
        let ghost view = (entry.0, entry.1@);
        out.push(entry);
        proof {
            assert(tree::pages_view(out@) =~= was.push(view));
        }
        i = i + 1;
    }
    assert(tree::pages_view(out@) =~= want);
    out
}

/// What a transaction does to its database.
pub open spec fn outcome(t: crate::db::write::StagedView) -> Result<Model, Error> {
    match validated(t.base, t.ops, t.ops.len() as int) {
        Err(e) => Err(e),
        Ok(_) => match state::applied(t.base, t.ops, t.ops.len() as int) {
            (m, None) => Ok(m),
            (_, Some(e)) => Err(e),
        },
    }
}

proof fn lemma_applied_is_validated(m: Model, ops: Seq<OperationView>, n: int)
    requires
        0 <= n <= ops.len(),
        state::applied(m, ops, n).1 is None,
    ensures
        validated(m, ops, n) is Ok,
    decreases n,
{
    if n > 0 {
        lemma_applied_is_validated(m, ops, n - 1);
        staged::law_staged_is_what_is_applied(m, ops, n - 1, ops[n - 1].1, Seq::empty());
    }
}

/// A transaction that can be carried out is: no operation that was staged is
/// refused when it is committed.
pub proof fn law_foreseen_transaction_has_its_outcome(t: crate::db::write::StagedView)
    requires
        crate::db::write::foresees(t),
    ensures
        outcome(t) == Ok::<Model, Error>(state::applied(t.base, t.ops, t.ops.len() as int).0),
{
    lemma_applied_is_validated(t.base, t.ops, t.ops.len() as int);
}

/// Prepares the commit of a transaction. One without operations needs none.
pub fn prepare(tx: &WriteTransaction<'_>) -> (r: Result<Option<Commit>, Error>)
    requires
        tx.wf(),
    ensures
        match r {
            Ok(None) => tx@.ops.len() == 0,
            Ok(Some(c)) => tx@.ops.len() > 0 && outcome(tx@) is Ok && state::paths_fit(
                outcome(tx@)->Ok_0,
            ) && packs(c, outcome(tx@)->Ok_0, tx.begun().state.meta),
            Err(e) => tx@.ops.len() > 0 && match outcome(tx@) {
                Err(f) => e == f,
                Ok(m) => cannot_pack(m, tx.begun().state.meta, e),
            },
        },
{
    let operations: &Vec<Operation> = tx.operations();
    if operations.len() == 0 {
        return Ok(None);
    }
    let base: ReadTransaction<'_> = tx.base();
    match validate_operations(base, operations) {
        Ok(_) => {},
        Err(e) => return Err(e),
    }
    let mut owned_state: OwnedState = from_state(base);
    match owned_state.apply(operations) {
        Ok(_) => {},
        Err(e) => return Err(e),
    }
    match pack(&owned_state, base.state.meta) {
        Ok(c) => Ok(Some(c)),
        Err(e) => Err(e),
    }
}

/// The pages of a new database file: those of an empty tree, and one meta page
/// for both slots.
#[derive(Debug)]
pub struct Initial {
    pub meta: Meta,
    pub length: u64,
    pub writes: Vec<(u64, Vec<u8>)>,
    pub meta_page: Vec<u8>,
}

impl Initial {
    /// Whether this lays out an empty tree.
    pub open spec fn publishes(self, t: TreeView) -> bool {
        &&& self.meta == Meta {
            page_size: PAGE_SIZE as u32,
            txid: 0,
            root: t.root,
            high_water: t.high_water,
            freelist: 0,
        }
        &&& self.length == t.high_water * PAGE_SIZE
        &&& tree::pages_view(self.writes@) == offsets(t.pages, PAGE_SIZE as int)
        &&& self.meta_page@ == page::meta_bytes(self.meta)
    }
}

/// Lays out a new database file.
pub fn initialize() -> (r: Result<Initial, Error>)
    ensures
        r is Ok,
        tree::tree_of(Seq::empty(), PAGE_SIZE as int, 2) is Some,
        r->Ok_0.publishes(tree::tree_of(Seq::empty(), PAGE_SIZE as int, 2)->0),
{
    let records: Vec<Record> = Vec::new();
    proof {
        tree::law_empty_tree(2);
        assert(tree::records_view(records@) =~= Seq::<RecordView>::empty());
        assert(!tree::has_duplicate(Seq::<RecordView>::empty()));
        lemma_page_size_ok();
        tree::law_tree_stays_between(Seq::empty(), PAGE_SIZE as int, 2);
    }
    let built: BuiltTree = match build_tree(&records, PAGE_SIZE, 2) {
        Ok(built) => built,
        Err(e) => return Err(e),
    };
    let meta: Meta = Meta {
        page_size: PAGE_SIZE as u32,
        txid: 0,
        root: built.root,
        high_water: built.high_water,
        freelist: 0,
    };
    let meta_page: Vec<u8> = match meta.encode() {
        Ok(page) => page,
        Err(e) => return Err(e),
    };
    let length: u64 = built.high_water * PAGE_SIZE as u64;
    let writes: Vec<(u64, Vec<u8>)> = place_pages(built.pages, PAGE_SIZE as u64, built.high_water);
    Ok(Initial { meta, length, writes, meta_page })
}

/// The page size of a database file can carry a tree.
pub proof fn lemma_page_size_ok()
    ensures
        tree::page_size_ok(PAGE_SIZE as int),
{
    assert(page::power_of_two(1));
    assert(page::power_of_two(2));
    assert(page::power_of_two(4));
    assert(page::power_of_two(8));
    assert(page::power_of_two(16));
    assert(page::power_of_two(32));
    assert(page::power_of_two(64));
    assert(page::power_of_two(128));
    assert(page::power_of_two(256));
    assert(page::power_of_two(512));
    assert(page::power_of_two(1024));
    assert(page::power_of_two(2048));
    assert(page::power_of_two(4096));
}

/// How many entries the first `n` buckets have.
pub open spec fn entry_total(buckets: Seq<BucketIndex>, n: int) -> int
    decreases n,
{
    if n <= 0 {
        0
    } else {
        entry_total(buckets, n - 1) + buckets[n - 1].entries@.len()
    }
}

fn count_entries(buckets: &Vec<BucketIndex>) -> (r: u128)
    ensures
        r == entry_total(buckets@, buckets@.len() as int),
{
    let mut total: u128 = 0;
    let mut i: usize = 0;
    while i < buckets.len()
        invariant
            i <= buckets@.len(),
            total == entry_total(buckets@, i as int),
            total <= i * 0xffff_ffff_ffff_ffff,
        decreases buckets@.len() - i,
    {
        total = total + buckets[i].entries.len() as u128;
        i = i + 1;
    }
    total
}

/// Checks that a file still holds what was loaded from it: the same meta page,
/// and as many buckets and entries.
pub fn check(state: &State, image: &[u8]) -> (r: Result<(), Error>)
    ensures
        match load::loaded(image@) {
            Err(e) => r == Err::<(), Error>(e),
            Ok((meta, m)) => match r {
                Ok(_) => meta == state.meta && exists|other: State| #[trigger]
                    other.model(image@) == m && other.wf(image@) && other.buckets@.len()
                        == state.buckets@.len() && entry_total(
                        other.buckets@,
                        other.buckets@.len() as int,
                    ) == entry_total(state.buckets@, state.buckets@.len() as int),
                Err(e) => e == Error::Corrupt("state does not match committed data") && (meta
                    != state.meta || exists|other: State| #[trigger]
                    other.model(image@) == m && other.wf(image@) && (other.buckets@.len()
                        != state.buckets@.len() || entry_total(
                        other.buckets@,
                        other.buckets@.len() as int,
                    ) != entry_total(state.buckets@, state.buckets@.len() as int))),
            },
        },
{
    let fresh: State = match load_state(image) {
        Ok(fresh) => fresh,
        Err(e) => return Err(e),
    };
    assert(fresh.wf(image@));
    assert(load::loaded(image@) == Ok::<(Meta, Model), Error>((fresh.meta, fresh.model(image@))));
    if fresh.meta != state.meta || fresh.buckets.len() != state.buckets.len() || count_entries(
        &fresh.buckets,
    ) != count_entries(&state.buckets) {
        return Err(Error::Corrupt("state does not match committed data"));
    }
    Ok(())
}

} // verus!
