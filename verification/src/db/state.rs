//! What a database holds, and how operations change it.

use crate::bytemap::ByteMap;
use crate::bytes::{self, append, owned, push_u32_le, push_u64_le};
use crate::db::path::{self, parent_path};
use crate::error::Error;
use crate::format::{
    Operation, OperationView, CREATE_BUCKET, DELETE, DELETE_BUCKET, PUT,
};
use crate::page::{Record, RecordView};
use crate::tree;
use vstd::prelude::*;

verus! {

/// A bucket: its counter and its entries.
#[verifier::ext_equal]
pub struct BucketModel {
    pub next: u64,
    pub entries: Map<Seq<u8>, Seq<u8>>,
}

/// A database: the buckets by their paths.
pub type Model = Map<Seq<u8>, BucketModel>;

/// A bucket after its counter was raised. The counter stays at its largest
/// value.
pub open spec fn bumped(b: BucketModel) -> BucketModel {
    BucketModel {
        next: if b.next == u64::MAX {
            b.next
        } else {
            (b.next + 1) as u64
        },
        ..b
    }
}

/// A new bucket.
pub open spec fn fresh_bucket() -> BucketModel {
    BucketModel { next: 0, entries: Map::empty() }
}

/// What creating the bucket at `at` does.
pub open spec fn create_bucket(m: Model, at: Seq<u8>) -> Result<Model, Error> {
    if m.contains_key(at) {
        Err(Error::BucketExists)
    } else {
        match path::parent_of(at) {
            Some(parent) if parent.len() > 0 => if m.contains_key(parent) {
                Ok(m.insert(parent, bumped(m[parent])).insert(at, fresh_bucket()))
            } else {
                Err(Error::BucketNotFound)
            },
            _ => Ok(m.insert(at, fresh_bucket())),
        }
    }
}

/// What deleting the bucket at `at` does: everything below it goes too.
pub open spec fn delete_bucket(m: Model, at: Seq<u8>) -> Result<Model, Error> {
    if m.contains_key(at) {
        Ok(m.remove_keys(Set::new(|p: Seq<u8>| at.is_prefix_of(p))))
    } else {
        Err(Error::BucketNotFound)
    }
}

/// What storing a value does. A new key raises the bucket's counter.
pub open spec fn put(m: Model, at: Seq<u8>, key: Seq<u8>, value: Seq<u8>) -> Result<Model, Error> {
    if m.contains_key(at) {
        let b = m[at];
        let counted = if b.entries.contains_key(key) {
            b
        } else {
            bumped(b)
        };
        Ok(m.insert(at, BucketModel { entries: b.entries.insert(key, value), ..counted }))
    } else {
        Err(Error::BucketNotFound)
    }
}

/// What deleting a key does.
pub open spec fn delete(m: Model, at: Seq<u8>, key: Seq<u8>) -> Result<Model, Error> {
    if m.contains_key(at) && m[at].entries.contains_key(key) {
        Ok(m.insert(at, BucketModel { entries: m[at].entries.remove(key), ..m[at] }))
    } else {
        Err(Error::KeyValueMissing)
    }
}

/// What one operation does.
pub open spec fn apply_op(m: Model, op: OperationView) -> Result<Model, Error> {
    if op.0 == CREATE_BUCKET {
        create_bucket(m, op.1)
    } else if op.0 == DELETE_BUCKET {
        delete_bucket(m, op.1)
    } else if op.0 == PUT {
        put(m, op.1, op.2, op.3)
    } else if op.0 == DELETE {
        delete(m, op.1, op.2)
    } else {
        Err(Error::Corrupt("unknown staged operation"))
    }
}

/// What the first `n` operations do: they are done in order up to the first
/// that fails.
pub open spec fn applied(m: Model, ops: Seq<OperationView>, n: int) -> (Model, Option<Error>)
    decreases n,
{
    if n <= 0 {
        (m, None)
    } else {
        let before = applied(m, ops, n - 1);
        if before.1 is Some {
            before
        } else {
            match apply_op(before.0, ops[n - 1]) {
                Ok(after) => (after, None),
                Err(e) => (before.0, Some(e)),
            }
        }
    }
}

/// What follows a failed operation does not matter.
pub proof fn lemma_applied_stops(m: Model, ops: Seq<OperationView>, n: int, k: int)
    requires
        0 <= n <= k,
        applied(m, ops, n).1 is Some,
    ensures
        applied(m, ops, k) == applied(m, ops, n),
    decreases k,
{
    if n < k {
        lemma_applied_stops(m, ops, n, k - 1);
    }
}

/// The key of a bucket's record.
pub open spec fn bucket_key(at: Seq<u8>) -> Seq<u8> {
    seq![0u8] + at
}

/// The record of a bucket.
pub open spec fn bucket_record(at: Seq<u8>, next: u64) -> RecordView {
    RecordView { key: bucket_key(at), value: bytes::le_of(next as nat, 8) }
}

/// The key of an entry's record.
pub open spec fn entry_key(at: Seq<u8>, key: Seq<u8>) -> Seq<u8> {
    seq![1u8] + bytes::le_of(at.len(), 4) + at + key
}

/// The record of an entry.
pub open spec fn entry_record(at: Seq<u8>, key: Seq<u8>, value: Seq<u8>) -> RecordView {
    RecordView { key: entry_key(at, key), value }
}

/// Whether a record belongs to a database.
pub open spec fn record_in(r: RecordView, m: Model) -> bool {
    ||| exists|at: Seq<u8>| m.contains_key(at) && r == #[trigger] bucket_record(at, m[at].next)
    ||| exists|at: Seq<u8>, key: Seq<u8>|
        m.contains_key(at) && m[at].entries.contains_key(key) && r == #[trigger] entry_record(
            at,
            key,
            m[at].entries[key],
        )
}

/// Whether `records` are the records of a database: one for every bucket and
/// one for every entry, and no others.
pub open spec fn records_match(records: Seq<RecordView>, m: Model) -> bool {
    &&& forall|i: int| 0 <= i < records.len() ==> record_in(#[trigger] records[i], m)
    &&& forall|at: Seq<u8>| #[trigger]
        m.contains_key(at) ==> records.contains(bucket_record(at, m[at].next))
    &&& forall|at: Seq<u8>, key: Seq<u8>|
        m.contains_key(at) && #[trigger] m[at].entries.contains_key(key) ==> records.contains(
            entry_record(at, key, m[at].entries[key]),
        )
}

/// Whether every bucket with entries has a path whose length fits a record.
pub open spec fn paths_fit(m: Model) -> bool {
    forall|at: Seq<u8>, key: Seq<u8>|
        m.contains_key(at) && #[trigger] m[at].entries.contains_key(key) ==> at.len() <= u32::MAX
}

/// A bucket in memory.
pub struct OwnedBucket {
    pub next: u64,
    pub entries: ByteMap<Vec<u8>>,
}

/// The values of a map of byte strings.
pub open spec fn values_view(m: Map<Seq<u8>, Vec<u8>>) -> Map<Seq<u8>, Seq<u8>> {
    m.map_values(|v: Vec<u8>| v@)
}

impl OwnedBucket {
    pub open spec fn model(self) -> BucketModel {
        BucketModel { next: self.next, entries: values_view(self.entries@) }
    }
}

/// A database in memory, to which operations are applied.
pub struct OwnedState {
    pub buckets: ByteMap<OwnedBucket>,
}

/// The buckets of a map by what they hold.
pub open spec fn buckets_model(m: Map<Seq<u8>, OwnedBucket>) -> Model {
    m.map_values(|b: OwnedBucket| b.model())
}

impl OwnedState {
    pub open spec fn model(self) -> Model {
        buckets_model(self.buckets@)
    }

    /// Whether the maps are in order.
    pub open spec fn wf(self) -> bool {
        &&& self.buckets.wf()
        &&& forall|at: Seq<u8>| #[trigger]
            self.buckets@.contains_key(at) ==> self.buckets@[at].entries.wf()
    }

    /// A database without buckets.
    pub fn new() -> (r: OwnedState)
        ensures
            r.wf(),
            r.model() == Map::<Seq<u8>, BucketModel>::empty(),
    {
        let r: OwnedState = OwnedState { buckets: ByteMap::new() };
        assert(r.model() =~= Map::<Seq<u8>, BucketModel>::empty());
        r
    }

    fn create(&mut self, at: &Vec<u8>) -> (r: Result<(), Error>)
        requires
            old(self).wf(),
        ensures
            final(self).wf(),
            match r {
                Ok(_) => create_bucket(old(self).model(), at@) == Ok::<Model, Error>(
                    final(self).model(),
                ),
                Err(e) => create_bucket(old(self).model(), at@) == Err::<Model, Error>(e)
                    && final(self).model() == old(self).model(),
            },
    {
        if self.buckets.contains_key(at) {
            return Err(Error::BucketExists);
        }
        let ghost m = self.model();
        match parent_path(at) {
            Some(parent) => {
                if parent.len() > 0 {
                    match self.buckets.find(parent) {
                        Ok(i) => {
                            let ghost was = self.buckets@;
                            let b: &mut OwnedBucket = self.buckets.value_mut(i);
                            let raised: u64 = b.next.saturating_add(1);
                            b.next = raised;
                            assert(self.model() =~= m.insert(parent@, bumped(m[parent@])));
                        },
                        Err(_) => return Err(Error::BucketNotFound),
                    }
                }
            },
            None => {},
        }
        let ghost mid = self.model();
        let key: Vec<u8> = owned(at);
        let _before: Option<OwnedBucket> = self.buckets.insert(
            key,
            OwnedBucket { next: 0, entries: ByteMap::new() },
        );
        proof {
            assert(values_view(self.buckets@[at@].entries@) =~= Map::<Seq<u8>, Seq<u8>>::empty());
            assert(self.model() =~= mid.insert(at@, fresh_bucket()));
        }
        Ok(())
    }

    fn remove_bucket(&mut self, at: &Vec<u8>) -> (r: Result<(), Error>)
        requires
            old(self).wf(),
        ensures
            final(self).wf(),
            match r {
                Ok(_) => delete_bucket(old(self).model(), at@) == Ok::<Model, Error>(
                    final(self).model(),
                ),
                Err(e) => delete_bucket(old(self).model(), at@) == Err::<Model, Error>(e)
                    && final(self).model() == old(self).model(),
            },
    {
        if !self.buckets.contains_key(at) {
            return Err(Error::BucketNotFound);
        }
        let ghost m = self.model();
        self.buckets.remove_prefix(at);
        proof {
            assert(self.model() =~= m.remove_keys(Set::new(|p: Seq<u8>| at@.is_prefix_of(p))));
        }
        Ok(())
    }

    fn store(&mut self, at: &Vec<u8>, key: &Vec<u8>, value: &Vec<u8>) -> (r: Result<(), Error>)
        requires
            old(self).wf(),
        ensures
            final(self).wf(),
            match r {
                Ok(_) => put(old(self).model(), at@, key@, value@) == Ok::<Model, Error>(
                    final(self).model(),
                ),
                Err(e) => put(old(self).model(), at@, key@, value@) == Err::<Model, Error>(e)
                    && final(self).model() == old(self).model(),
            },
    {
        match self.buckets.find(at) {
            Ok(i) => {
                let ghost m = self.model();
                let ghost was = self.buckets@;
                let b: &mut OwnedBucket = self.buckets.value_mut(i);
                let ghost entries = b.entries@;
                match b.entries.insert(owned(key), owned(value)) {
                    Some(_) => {},
                    None => {
                        let raised: u64 = b.next.saturating_add(1);
                        b.next = raised;
                    },
                }
                proof {
                    let now = self.buckets@[at@];
                    assert(values_view(now.entries@) =~= values_view(entries).insert(
                        key@,
                        value@,
                    ));
                    assert(self.model() =~= m.insert(at@, now.model()));
                }
                Ok(())
            },
            Err(_) => Err(Error::BucketNotFound),
        }
    }

    fn erase(&mut self, at: &Vec<u8>, key: &Vec<u8>) -> (r: Result<(), Error>)
        requires
            old(self).wf(),
        ensures
            final(self).wf(),
            match r {
                Ok(_) => delete(old(self).model(), at@, key@) == Ok::<Model, Error>(
                    final(self).model(),
                ),
                Err(e) => delete(old(self).model(), at@, key@) == Err::<Model, Error>(e)
                    && final(self).model() == old(self).model(),
            },
    {
        match self.buckets.find(at) {
            Ok(i) => {
                let ghost m = self.model();
                if !self.buckets.value_at(i).entries.contains_key(key) {
                    return Err(Error::KeyValueMissing);
                }
                let b: &mut OwnedBucket = self.buckets.value_mut(i);
                let ghost entries = b.entries@;
                let _gone: Option<Vec<u8>> = b.entries.remove(key);
                proof {
                    let now = self.buckets@[at@];
                    assert(values_view(now.entries@) =~= values_view(entries).remove(key@));
                    assert(self.model() =~= m.insert(at@, now.model()));
                }
                Ok(())
            },
            Err(_) => Err(Error::KeyValueMissing),
        }
    }

    /// Applies operations in order, up to the first that fails.
    pub fn apply(&mut self, operations: &[Operation]) -> (r: Result<(), Error>)
        requires
            old(self).wf(),
        ensures
            final(self).wf(),
            final(self).model() == applied(
                old(self).model(),
                crate::format::views_of(operations@),
                operations@.len() as int,
            ).0,
            r == (match applied(
                old(self).model(),
                crate::format::views_of(operations@),
                operations@.len() as int,
            ).1 {
                Some(e) => Err(e),
                None => Ok(()),
            }),
    {
        let ghost m = self.model();
        let ghost views = crate::format::views_of(operations@);
        let mut i: usize = 0;
        while i < operations.len()
            invariant
                i <= operations@.len(),
                self.wf(),
                m == old(self).model(),
                views == crate::format::views_of(operations@),
                applied(m, views, i as int) == (self.model(), None::<Error>),
            decreases operations@.len() - i,
        {
            let op: &Operation = &operations[i];
            let kind: u8 = op.0;
            assert(views[i as int] == (op.0, op.1@, op.2@, op.3@));
            let done: Result<(), Error> = if kind == CREATE_BUCKET {
                self.create(&op.1)
            } else if kind == DELETE_BUCKET {
                self.remove_bucket(&op.1)
            } else if kind == PUT {
                self.store(&op.1, &op.2, &op.3)
            } else if kind == DELETE {
                self.erase(&op.1, &op.2)
            } else {
                Err(Error::Corrupt("unknown staged operation"))
            };
            match done {
                Ok(_) => {},
                Err(e) => {
                    proof {
                        lemma_applied_stops(m, views, i + 1, operations@.len() as int);
                    }
                    return Err(e);
                },
            }
            i = i + 1;
        }
        Ok(())
    }

    /// The entry `b` of the bucket `a`, in path order and key order.
    pub open spec fn nth(self, a: int, b: int) -> RecordView {
        let bucket = self.buckets.listing()[a];
        let entry = bucket.1.entries.listing()[b];
        entry_record(bucket.0, entry.0, entry.1@)
    }

    /// How many entries the bucket `a` has.
    pub open spec fn entry_count(self, a: int) -> nat {
        self.buckets.listing()[a].1.entries.listing().len()
    }

    /// The entries of the `a`-th bucket and of those before, as records.
    proof fn lemma_nth(self, a: int, b: int)
        requires
            self.wf(),
            0 <= a < self.buckets.listing().len(),
            0 <= b < self.entry_count(a),
        ensures
            ({
                let at = self.buckets.listing()[a].0;
                let key = self.buckets.listing()[a].1.entries.listing()[b].0;
                &&& self.model().contains_key(at)
                &&& self.model()[at].entries.contains_key(key)
                &&& self.nth(a, b) == entry_record(at, key, self.model()[at].entries[key])
            }),
    {
        self.buckets.lemma_listing();
        let l = self.buckets.listing();
        crate::assoc::lemma_assoc_at(l, a);
        assert(self.buckets@.contains_key(l[a].0));
        let inner = l[a].1.entries;
        inner.lemma_listing();
        crate::assoc::lemma_assoc_at(inner.listing(), b);
    }

    /// The records of the database.
    pub fn records(&self) -> (r: Result<Vec<Record>, Error>)
        requires
            self.wf(),
        ensures
            match r {
                Ok(records) => paths_fit(self.model()) && records_match(
                    tree::records_view(records@),
                    self.model(),
                ) && !tree::has_duplicate(tree::records_view(records@)),
                Err(e) => e == Error::TooLarge && !paths_fit(self.model()),
            },
    {
        let ghost l = self.buckets.listing();
        proof {
            self.buckets.lemma_listing();
        }
        let mut records: Vec<Record> = Vec::new();
        let mut i: usize = 0;
        while i < self.buckets.len()
            invariant
                self.wf(),
                l == self.buckets.listing(),
                crate::assoc::distinct(l),
                i <= l.len(),
                records@.len() == i,
                forall|j: int|
                    0 <= j < i ==> #[trigger] tree::records_view(records@)[j] == bucket_record(
                        l[j].0,
                        l[j].1.next,
                    ),
            decreases l.len() - i,
        {
            let mut key: Vec<u8> = Vec::new();
            key.push(0);
            append(&mut key, self.buckets.key_at(i));
            let mut value: Vec<u8> = Vec::new();
            push_u64_le(&mut value, self.buckets.value_at(i).next);
            let ghost was = tree::records_view(records@);
            proof {
                assert(key@ =~= bucket_key(l[i as int].0));
                assert(value@ =~= bytes::le_of(l[i as int].1.next as nat, 8));
            }
            let record: Record = Record { key, value };
            let ghost view = record@;
            records.push(record);
            proof {
                assert(tree::records_view(records@) =~= was.push(view));
            }
            i = i + 1;
        }
        let ghost n = l.len() as int;
        let ghost mut src: Seq<(int, int)> = Seq::empty();
        proof {
            let v = tree::records_view(records@);
            assert(!tree::has_duplicate(v)) by {
                if tree::has_duplicate(v) {
                    let (a, b) = choose|a: int, b: int|
                        0 <= a < b < v.len() && (#[trigger] v[a]).key == (#[trigger] v[b]).key;
                    assert(v[a].key.skip(1) =~= l[a].0);
                    assert(v[b].key.skip(1) =~= l[b].0);
                }
            }
        }
        let mut a: usize = 0;
        while a < self.buckets.len()
            invariant
                self.wf(),
                l == self.buckets.listing(),
                crate::assoc::distinct(l),
                n == l.len(),
                a <= n,
                self.gathered(tree::records_view(records@), src, a as int, 0),
            decreases n - a,
        {
            let bucket: &OwnedBucket = self.buckets.value_at(a);
            let ghost e = bucket.entries.listing();
            proof {
                self.buckets.lemma_listing();
                crate::assoc::lemma_assoc_at(l, a as int);
                assert(self.buckets@.contains_key(l[a as int].0));
                bucket.entries.lemma_listing();
            }
            if bucket.entries.len() > 0 && self.buckets.key_at(a).len() as u64 > u32::MAX as u64 {
                proof {
                    self.lemma_nth(a as int, 0);
                }
                return Err(Error::TooLarge);
            }
            let mut b: usize = 0;
            while b < bucket.entries.len()
                invariant
                    self.wf(),
                    l == self.buckets.listing(),
                    crate::assoc::distinct(l),
                    n == l.len(),
                    a < n,
                    *bucket == l[a as int].1,
                    e == bucket.entries.listing(),
                    crate::assoc::distinct(e),
                    b <= e.len(),
                    e.len() > 0 ==> l[a as int].0.len() <= u32::MAX,
                    self.gathered(tree::records_view(records@), src, a as int, b as int),
                decreases e.len() - b,
            {
                let at: &Vec<u8> = self.buckets.key_at(a);
                let mut key: Vec<u8> = Vec::new();
                key.push(1);
                push_u32_le(&mut key, at.len() as u32);
                append(&mut key, at);
                append(&mut key, bucket.entries.key_at(b));
                let value: Vec<u8> = owned(bucket.entries.value_at(b));
                let ghost was = tree::records_view(records@);
                let record: Record = Record { key, value };
                let ghost view = record@;
                proof {
                    assert(view.key =~= entry_key(l[a as int].0, e[b as int].0));
                    assert(view == self.nth(a as int, b as int));
                }
                records.push(record);
                proof {
                    assert(tree::records_view(records@) =~= was.push(view));
                    self.lemma_gather(was, src, a as int, b as int);
                    src = src.push((a as int, b as int));
                }
                b = b + 1;
            }
            proof {
                self.lemma_gathered_bucket(tree::records_view(records@), src, a as int);
            }
            a = a + 1;
        }
        proof {
            self.lemma_gathered_all(tree::records_view(records@), src);
        }
        Ok(records)
    }

    /// Whether `v` holds the record of every bucket, and behind them those of
    /// the entries before entry `b` of bucket `a`; `src` says which is which.
    closed spec fn gathered(
        self,
        v: Seq<RecordView>,
        src: Seq<(int, int)>,
        a: int,
        b: int,
    ) -> bool {
        let l = self.buckets.listing();
        let n = l.len() as int;
        &&& v.len() == n + src.len()
        &&& !tree::has_duplicate(v)
        &&& forall|j: int|
            0 <= j < n ==> #[trigger] v[j] == bucket_record(l[j].0, l[j].1.next)
        &&& forall|x: int|
            0 <= x < src.len() ==> v[n + x] == self.nth((#[trigger] src[x]).0, src[x].1)
        &&& forall|x: int|
            0 <= x < src.len() ==> 0 <= (#[trigger] src[x]).0 < n && 0 <= src[x].1
                < self.entry_count(src[x].0) && l[src[x].0].0.len() <= u32::MAX && (src[x].0 < a
                || src[x].0 == a && src[x].1 < b)
        &&& self.covered(src, a, b)
    }

    /// Whether `src` tells of every entry before entry `b` of bucket `a`.
    closed spec fn covered(self, src: Seq<(int, int)>, a: int, b: int) -> bool {
        let l = self.buckets.listing();
        forall|c: int, d: int|
            0 <= c < l.len() && 0 <= d < self.entry_count(c) && (c < a || c == a && d < b)
                ==> #[trigger] src.contains((c, d)) && l[c].0.len() <= u32::MAX
    }

    proof fn lemma_gather(self, v: Seq<RecordView>, src: Seq<(int, int)>, a: int, b: int)
        requires
            self.wf(),
            self.gathered(v, src, a, b),
            0 <= a < self.buckets.listing().len(),
            0 <= b < self.entry_count(a),
            self.buckets.listing()[a].0.len() <= u32::MAX,
        ensures
            self.gathered(v.push(self.nth(a, b)), src.push((a, b)), a, b + 1),
    {
        let l = self.buckets.listing();
        let n = l.len() as int;
        let new = self.nth(a, b);
        let w = v.push(new);
        let now = src.push((a, b));
        self.buckets.lemma_listing();
        crate::assoc::lemma_assoc_at(l, a);
        assert(self.buckets@.contains_key(l[a].0));
        let e = l[a].1.entries;
        e.lemma_listing();
        assert(!tree::has_duplicate(w)) by {
            if tree::has_duplicate(w) {
                let (x, y) = choose|x: int, y: int|
                    0 <= x < y < w.len() && (#[trigger] w[x]).key == (#[trigger] w[y]).key;
                if y < v.len() {
                    assert(v[x].key == v[y].key);
                } else if x < n {
                    assert(v[x] == bucket_record(l[x].0, l[x].1.next));
                    assert(w[x].key[0] == 0);
                    assert(new.key[0] == 1);
                } else {
                    let (c, d) = src[x - n];
                    assert(v[n + (x - n)] == self.nth(c, d));
                    let f = l[c].1.entries;
                    crate::assoc::lemma_assoc_at(l, c);
                    assert(self.buckets@.contains_key(l[c].0));
                    f.lemma_listing();
                    lemma_entry_key_injective(
                        l[c].0,
                        f.listing()[d].0,
                        l[a].0,
                        e.listing()[b].0,
                    );
                    assert(c == a && d == b);
                }
            }
        }
        assert forall|j: int| 0 <= j < n implies #[trigger] w[j] == bucket_record(
            l[j].0,
            l[j].1.next,
        ) by {
            assert(v[j] == w[j]);
        }
        assert forall|x: int| 0 <= x < now.len() implies w[n + x] == self.nth(
            (#[trigger] now[x]).0,
            now[x].1,
        ) by {
            if x < src.len() {
                assert(now[x] == src[x]);
                assert(v[n + x] == w[n + x]);
            }
        }
        assert forall|x: int| 0 <= x < now.len() implies 0 <= (#[trigger] now[x]).0 < n && 0
            <= now[x].1 < self.entry_count(now[x].0) && l[now[x].0].0.len() <= u32::MAX && (
        now[x].0 < a || now[x].0 == a && now[x].1 < b + 1) by {
            if x < src.len() {
                assert(now[x] == src[x]);
            }
        }
        assert forall|c: int, d: int|
            0 <= c < n && 0 <= d < self.entry_count(c) && (c < a || c == a && d < b
                + 1) implies #[trigger] now.contains((c, d)) && l[c].0.len() <= u32::MAX by {
            if c == a && d == b {
                assert(now[src.len() as int] == (c, d));
            } else {
                assert(src.contains((c, d)));
                let x = choose|x: int| 0 <= x < src.len() && src[x] == (c, d);
                assert(now[x] == (c, d));
            }
        }
        assert(self.covered(now, a, b + 1));
    }

    proof fn lemma_gathered_bucket(self, v: Seq<RecordView>, src: Seq<(int, int)>, a: int)
        requires
            self.gathered(v, src, a, self.entry_count(a) as int),
        ensures
            self.gathered(v, src, a + 1, 0),
    {
    }

    proof fn lemma_gathered_all(self, v: Seq<RecordView>, src: Seq<(int, int)>)
        requires
            self.wf(),
            self.gathered(v, src, self.buckets.listing().len() as int, 0),
        ensures
            paths_fit(self.model()),
            records_match(v, self.model()),
            !tree::has_duplicate(v),
    {
        let l = self.buckets.listing();
        let n = l.len() as int;
        let m = self.model();
        self.buckets.lemma_listing();
        assert forall|i: int| 0 <= i < v.len() implies record_in(#[trigger] v[i], m) by {
            if i < n {
                crate::assoc::lemma_assoc_at(l, i);
                assert(v[i] == bucket_record(l[i].0, m[l[i].0].next));
            } else {
                let (c, d) = src[i - n];
                assert(v[n + (i - n)] == self.nth(c, d));
                self.lemma_nth(c, d);
            }
        }
        assert forall|at: Seq<u8>| #[trigger] m.contains_key(at) implies v.contains(
            bucket_record(at, m[at].next),
        ) by {
            crate::assoc::lemma_assoc_has(l, at);
            let j = choose|j: int| 0 <= j < l.len() && (#[trigger] l[j]).0 == at;
            crate::assoc::lemma_assoc_at(l, j);
            assert(v[j] == bucket_record(at, m[at].next));
        }
        assert forall|at: Seq<u8>, key: Seq<u8>|
            m.contains_key(at) && #[trigger] m[at].entries.contains_key(key) implies v.contains(
            entry_record(at, key, m[at].entries[key]),
        ) && at.len() <= u32::MAX by {
            crate::assoc::lemma_assoc_has(l, at);
            let c = choose|c: int| 0 <= c < l.len() && (#[trigger] l[c]).0 == at;
            crate::assoc::lemma_assoc_at(l, c);
            assert(self.buckets@.contains_key(at));
            let e = l[c].1.entries;
            e.lemma_listing();
            crate::assoc::lemma_assoc_has(e.listing(), key);
            let d = choose|d: int| 0 <= d < e.listing().len() && (#[trigger] e.listing()[d]).0
                == key;
            assert(src.contains((c, d)));
            let x = choose|x: int| 0 <= x < src.len() && src[x] == (c, d);
            assert(v[n + x] == self.nth(src[x].0, src[x].1));
            self.lemma_nth(c, d);
        }
    }
}

/// Different entries have different record keys.
pub proof fn lemma_entry_key_injective(
    at: Seq<u8>,
    key: Seq<u8>,
    other_at: Seq<u8>,
    other_key: Seq<u8>,
)
    requires
        at.len() <= u32::MAX,
        other_at.len() <= u32::MAX,
        entry_key(at, key) == entry_key(other_at, other_key),
    ensures
        at == other_at,
        key == other_key,
{
    let s = entry_key(at, key);
    bytes::lemma_pow256_widths();
    bytes::lemma_le_of_len(at.len(), 4);
    bytes::lemma_le_of_len(other_at.len(), 4);
    assert(s.subrange(1, 5) =~= bytes::le_of(at.len(), 4));
    assert(s.subrange(1, 5) =~= bytes::le_of(other_at.len(), 4));
    bytes::lemma_le_field(s, 1, at.len(), 4);
    bytes::lemma_le_field(s, 1, other_at.len(), 4);
    let end = 5 + at.len() as int;
    assert(s.subrange(5, end) =~= at);
    assert(s.subrange(5, end) =~= other_at);
    assert(s.subrange(end, s.len() as int) =~= key);
    assert(s.subrange(end, s.len() as int) =~= other_key);
}

} // verus!
