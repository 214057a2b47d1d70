//! Write transactions: operations are staged against a loaded database and
//! take effect together, or not at all.

use crate::bytemap::ByteMap;
use crate::bytes::{owned, same, starts_with};
use crate::db::load::{self, find_bucket, find_entry};
use crate::db::path::{self, child_path, parent_path, root_path};
use crate::db::read::ReadTransaction;
use crate::db::staged::{self, exists_after};
use crate::db::state::{self, Model};
use crate::error::Error;
use crate::format::{Operation, OperationView, CREATE_BUCKET, DELETE, DELETE_BUCKET, PUT};
use vstd::prelude::*;

verus! {

/// A write transaction: the database it began with and the operations it
/// staged.
#[verifier::ext_equal]
pub struct StagedView {
    pub base: Model,
    pub ops: Seq<OperationView>,
}

impl StagedView {
    /// Whether there will be a bucket at `at`.
    pub open spec fn bucket_will_exist(self, at: Seq<u8>) -> bool {
        staged::bucket_after(self.base, self.ops, self.ops.len() as int, at)
    }

    /// Whether a bucket will have a key.
    pub open spec fn key_will_exist(self, at: Seq<u8>, key: Seq<u8>) -> bool {
        staged::key_after(self.base, self.ops, self.ops.len() as int, at, key)
    }

    /// The counter a bucket will have.
    pub open spec fn next_int(self, at: Seq<u8>) -> u64 {
        staged::next_after(self.base, self.ops, self.ops.len() as int, at)
    }

    /// The transaction with one more operation.
    pub open spec fn staged(self, op: OperationView) -> StagedView {
        StagedView { ops: self.ops.push(op), ..self }
    }

    /// Staging the creation of a bucket.
    pub open spec fn creating(self, at: Seq<u8>) -> StagedView {
        self.staged((CREATE_BUCKET, at, Seq::empty(), Seq::empty()))
    }

    /// Staging the deletion of a bucket.
    pub open spec fn deleting(self, at: Seq<u8>) -> StagedView {
        self.staged((DELETE_BUCKET, at, Seq::empty(), Seq::empty()))
    }

    /// What creating the bucket `name` in the one at `parent` gives.
    pub open spec fn create(self, parent: Seq<u8>, name: Seq<u8>) -> Result<StagedView, Error> {
        let at = path::child_of(parent, name);
        if name.len() > u32::MAX {
            Err(Error::TooLarge)
        } else if self.bucket_will_exist(at) {
            Err(Error::BucketExists)
        } else if parent.len() > 0 && self.key_will_exist(parent, name) {
            Err(Error::IncompatibleValue)
        } else {
            Ok(self.creating(at))
        }
    }

    /// What opening the bucket `name` in the one at `parent` gives.
    pub open spec fn open(self, parent: Seq<u8>, name: Seq<u8>) -> Result<StagedView, Error> {
        let at = path::child_of(parent, name);
        if name.len() > u32::MAX {
            Err(Error::TooLarge)
        } else if self.bucket_will_exist(at) {
            Ok(self)
        } else if parent.len() > 0 && self.key_will_exist(parent, name) {
            Err(Error::IncompatibleValue)
        } else {
            Err(Error::BucketNotFound)
        }
    }

    /// What opening or creating the bucket `name` in the one at `parent`
    /// gives.
    pub open spec fn open_or_create(self, parent: Seq<u8>, name: Seq<u8>) -> Result<
        StagedView,
        Error,
    > {
        let at = path::child_of(parent, name);
        if name.len() > u32::MAX {
            Err(Error::TooLarge)
        } else if self.bucket_will_exist(at) {
            Ok(self)
        } else if parent.len() > 0 && self.key_will_exist(parent, name) {
            Err(Error::IncompatibleValue)
        } else {
            Ok(self.creating(at))
        }
    }

    /// What deleting the bucket `name` in the one at `parent` gives.
    pub open spec fn delete_child(self, parent: Seq<u8>, name: Seq<u8>) -> Result<
        StagedView,
        Error,
    > {
        let at = path::child_of(parent, name);
        if name.len() > u32::MAX {
            Err(Error::TooLarge)
        } else if !self.bucket_will_exist(at) {
            Err(Error::BucketNotFound)
        } else {
            Ok(self.deleting(at))
        }
    }

    /// What storing a value in the bucket at `at` gives.
    pub open spec fn put(self, at: Seq<u8>, key: Seq<u8>, value: Seq<u8>) -> Result<
        StagedView,
        Error,
    > {
        if key.len() > u32::MAX {
            Err(Error::TooLarge)
        } else if self.bucket_will_exist(path::child_of(at, key)) {
            Err(Error::IncompatibleValue)
        } else {
            Ok(self.staged((PUT, at, key, value)))
        }
    }

    /// What deleting a key of the bucket at `at` gives.
    pub open spec fn delete(self, at: Seq<u8>, key: Seq<u8>) -> Result<StagedView, Error> {
        if key.len() > u32::MAX {
            Err(Error::TooLarge)
        } else if self.bucket_will_exist(path::child_of(at, key)) {
            Err(Error::IncompatibleValue)
        } else if !self.key_will_exist(at, key) {
            Err(Error::KeyValueMissing)
        } else {
            Ok(self.staged((DELETE, at, key, Seq::empty())))
        }
    }
}

/// A buffered write transaction.
pub struct WriteTransaction<'db> {
    base: ReadTransaction<'db>,
    operations: Vec<Operation>,
    bucket_changes: Vec<usize>,
}

impl<'db> View for WriteTransaction<'db> {
    type V = StagedView;

    closed spec fn view(&self) -> StagedView {
        StagedView {
            base: self.base.model(),
            ops: crate::format::views_of(self.operations@),
        }
    }
}

impl<'db> WriteTransaction<'db> {
    /// Whether the transaction stands on a loaded database.
    pub closed spec fn wf(&self) -> bool {
        self.base.wf() && staged::marked(
            self.bucket_changes@,
            crate::format::views_of(self.operations@),
            self.operations@.len() as int,
        )
    }

    /// The database the transaction began with.
    pub closed spec fn begun(&self) -> ReadTransaction<'db> {
        self.base
    }

    /// Begins a transaction.
    pub fn new(base: ReadTransaction<'db>) -> (r: Self)
        requires
            base.wf(),
        ensures
            r.wf(),
            r.begun() == base,
            r@ == (StagedView { base: base.model(), ops: Seq::empty() }),
    {
        let r: Self = WriteTransaction {
            base,
            operations: Vec::new(),
            bucket_changes: Vec::new(),
        };
        assert(r@.ops =~= Seq::<OperationView>::empty());
        r
    }

    /// The database the transaction began with.
    pub fn base(&self) -> (r: ReadTransaction<'db>)
        requires
            self.wf(),
        ensures
            r == self.begun(),
            r.wf(),
            r.model() == self@.base,
    {
        self.base
    }

    /// The staged operations.
    pub fn operations(&self) -> (r: &Vec<Operation>)
        ensures
            crate::format::views_of(r@) == self@.ops,
    {
        &self.operations
    }

    /// Whether there will be a bucket at `at`.
    pub fn bucket_will_exist(&self, at: &[u8]) -> (r: bool)
        requires
            self.wf(),
        ensures
            r == self@.bucket_will_exist(at@),
    {
        exists_after(
            self.base,
            &self.operations,
            &self.bucket_changes,
            self.operations.len(),
            at,
        )
    }

    /// Whether the loaded database has a key.
    fn base_has_key(&self, at: &[u8], key: &[u8]) -> (r: bool)
        requires
            self.wf(),
        ensures
            r == (self@.base.contains_key(at@) && self@.base[at@].entries.contains_key(key@)),
    {
        match find_bucket(self.base.image, &self.base.state.buckets, at) {
            Ok(b) => {
                assert(self.base.state.buckets@[b as int].wf(self.base.image@));
                match find_entry(self.base.image, &self.base.state.buckets[b], key) {
                    Ok(_) => true,
                    Err(_) => false,
                }
            },
            Err(_) => false,
        }
    }

    /// Whether a bucket will have a key.
    pub fn key_will_exist(&self, at: &[u8], key: &[u8]) -> (r: bool)
        requires
            self.wf(),
        ensures
            r == self@.key_will_exist(at@, key@),
    {
        let ghost m = self@.base;
        let ghost ops = self@.ops;
        let mut n: usize = self.operations.len();
        while n > 0
            invariant
                n <= self.operations@.len(),
                m == self@.base,
                ops == self@.ops,
                ops == crate::format::views_of(self.operations@),
                staged::key_after(m, ops, ops.len() as int, at@, key@) == staged::key_after(
                    m,
                    ops,
                    n as int,
                    at@,
                    key@,
                ),
            decreases n,
        {
            let op: &Operation = &self.operations[n - 1];
            assert(ops[n - 1] == (op.0, op.1@, op.2@, op.3@));
            if op.0 == DELETE_BUCKET && starts_with(at, &op.1) {
                return false;
            }
            if same(&op.1, at) {
                if op.0 == CREATE_BUCKET {
                    return false;
                }
                if (op.0 == PUT || op.0 == DELETE) && same(&op.2, key) {
                    return op.0 == PUT;
                }
            }
            n = n - 1;
        }
        self.base_has_key(at, key)
    }

    /// The counter a bucket will have.
    pub fn staged_next_int(&self, at: &[u8]) -> (r: u64)
        requires
            self.wf(),
        ensures
            r == self@.next_int(at@),
    {
        let ghost m = self@.base;
        let ghost ops = self@.ops;
        let mut start: usize = self.operations.len();
        let mut settled: bool = false;
        while start > 0 && !settled
            invariant
                start <= self.operations@.len(),
                ops == crate::format::views_of(self.operations@),
                forall|i: int| start <= i < ops.len() ==> !staged::settles(#[trigger] ops[i], at@),
                settled ==> start > 0 && staged::settles(ops[start - 1], at@),
            decreases start + if settled { 0int } else { 1int },
        {
            let op: &Operation = &self.operations[start - 1];
            assert(ops[start - 1] == (op.0, op.1@, op.2@, op.3@));
            if op.0 == DELETE_BUCKET && starts_with(at, &op.1) || op.0 == CREATE_BUCKET && same(
                &op.1,
                at,
            ) {
                settled = true;
            } else {
                start = start - 1;
            }
        }
        let mut next: u64 = 0;
        if !settled {
            match find_bucket(self.base.image, &self.base.state.buckets, at) {
                Ok(b) => {
                    next = self.base.state.buckets[b].next;
                },
                Err(_) => {},
            }
        }
        let mut keys: ByteMap<bool> = ByteMap::new();
        let mut i: usize = start;
        while i < self.operations.len()
            invariant
                start <= i <= self.operations@.len(),
                self.wf(),
                keys.wf(),
                m == self@.base,
                ops == self@.ops,
                ops == crate::format::views_of(self.operations@),
                forall|j: int| start <= j < ops.len() ==> !staged::settles(#[trigger] ops[j], at@),
                staged::next_after(m, ops, i as int, at@) == next,
                forall|k: Seq<u8>| #[trigger]
                    staged::key_after(m, ops, i as int, at@, k) == if keys@.contains_key(k) {
                        keys@[k]
                    } else {
                        !settled && m.contains_key(at@) && m[at@].entries.contains_key(k)
                    },
            decreases self.operations@.len() - i,
        {
            let op: &Operation = &self.operations[i];
            assert(ops[i as int] == (op.0, op.1@, op.2@, op.3@));
            assert(!staged::settles(ops[i as int], at@));
            let ghost was = keys@;
            let child: bool = if op.0 == CREATE_BUCKET {
                match parent_path(&op.1) {
                    Some(parent) => same(parent, at),
                    None => false,
                }
            } else {
                false
            };
            if child {
                next = next.saturating_add(1);
            } else if same(&op.1, at) && (op.0 == PUT || op.0 == DELETE) {
                let known: bool = match keys.get(&op.2) {
                    Some(known) => *known,
                    None => !settled && self.base_has_key(at, &op.2),
                };
                assert(known == staged::key_after(m, ops, i as int, at@, op.2@));
                if op.0 == PUT && !known {
                    next = next.saturating_add(1);
                }
                let _before: Option<bool> = keys.insert(owned(&op.2), op.0 == PUT);
            }
            proof {
                assert forall|k: Seq<u8>| #[trigger]
                    staged::key_after(m, ops, i + 1, at@, k) == if keys@.contains_key(k) {
                        keys@[k]
                    } else {
                        !settled && m.contains_key(at@) && m[at@].entries.contains_key(k)
                    } by {
                    assert(staged::key_after(m, ops, i as int, at@, k) == if was.contains_key(k) {
                        was[k]
                    } else {
                        !settled && m.contains_key(at@) && m[at@].entries.contains_key(k)
                    });
                }
            }
            i = i + 1;
        }
        next
    }

    fn push(&mut self, kind: u8, at: &[u8], key: &[u8], value: &[u8])
        requires
            old(self).wf(),
        ensures
            final(self).wf(),
            final(self).begun() == old(self).begun(),
            final(self)@ == old(self)@.staged((kind, at@, key@, value@)),
    {
        let ghost was = self@.ops;
        let ghost list = self.bucket_changes@;
        let n: usize = self.operations.len();
        if kind == CREATE_BUCKET || kind == DELETE_BUCKET {
            self.bucket_changes.push(n);
        }
        self.operations.push((kind, owned(at), owned(key), owned(value)));
        proof {
            assert(self@.ops =~= was.push((kind, at@, key@, value@)));
            staged::lemma_marked_prefix(list, was, self@.ops, n as int);
            staged::lemma_marked_grows(list, self.bucket_changes@, self@.ops, n as int);
        }
    }

    fn push_create(&mut self, at: &[u8])
        requires
            old(self).wf(),
        ensures
            final(self).wf(),
            final(self).begun() == old(self).begun(),
            final(self)@ == old(self)@.creating(at@),
    {
        let nothing: Vec<u8> = Vec::new();
        self.push(CREATE_BUCKET, at, &nothing, &nothing);
        assert(nothing@ =~= Seq::<u8>::empty());
    }

    fn push_delete(&mut self, at: &[u8])
        requires
            old(self).wf(),
        ensures
            final(self).wf(),
            final(self).begun() == old(self).begun(),
            final(self)@ == old(self)@.deleting(at@),
    {
        let nothing: Vec<u8> = Vec::new();
        self.push(DELETE_BUCKET, at, &nothing, &nothing);
        assert(nothing@ =~= Seq::<u8>::empty());
    }

    /// Creates a bucket.
    pub fn create_bucket(&mut self, name: &[u8]) -> (r: Result<WriteBucket<'_, 'db>, Error>)
        requires
            old(self).wf(),
        ensures
            match r {
                Ok(b) => old(self)@.create(Seq::empty(), name@) == Ok::<StagedView, Error>(b.tx@)
                    && b.path@ == path::child_of(Seq::empty(), name@) && b.wf() && b.tx.begun()
                    == old(self).begun() && *final(self) == *final(b.tx),
                Err(e) => old(self)@.create(Seq::empty(), name@) == Err::<StagedView, Error>(e)
                    && *final(self) == *old(self),
            },
    {
        let at: Vec<u8> = match root_path(name) {
            Ok(at) => at,
            Err(e) => return Err(e),
        };
        proof {
            path::law_child_path_parts(Seq::empty(), name@);
        }
        if self.bucket_will_exist(&at) {
            return Err(Error::BucketExists);
        }
        self.push_create(&at);
        Ok(WriteBucket { tx: self, path: at })
    }

    /// Opens a bucket.
    pub fn bucket(&mut self, name: &[u8]) -> (r: Result<WriteBucket<'_, 'db>, Error>)
        requires
            old(self).wf(),
        ensures
            match r {
                Ok(b) => old(self)@.open(Seq::empty(), name@) == Ok::<StagedView, Error>(b.tx@)
                    && b.path@ == path::child_of(Seq::empty(), name@) && b.wf() && b.tx.begun()
                    == old(self).begun() && *final(self) == *final(b.tx),
                Err(e) => old(self)@.open(Seq::empty(), name@) == Err::<StagedView, Error>(e)
                    && *final(self) == *old(self),
            },
    {
        let at: Vec<u8> = match root_path(name) {
            Ok(at) => at,
            Err(e) => return Err(e),
        };
        proof {
            path::law_child_path_parts(Seq::empty(), name@);
        }
        if !self.bucket_will_exist(&at) {
            return Err(Error::BucketNotFound);
        }
        Ok(WriteBucket { tx: self, path: at })
    }

    /// Opens a bucket, or creates it where there is none.
    pub fn get_or_create_bucket(&mut self, name: &[u8]) -> (r: Result<WriteBucket<'_, 'db>, Error>)
        requires
            old(self).wf(),
        ensures
            match r {
                Ok(b) => old(self)@.open_or_create(Seq::empty(), name@) == Ok::<StagedView, Error>(b.tx@)
                    && b.path@ == path::child_of(Seq::empty(), name@) && b.wf() && b.tx.begun()
                    == old(self).begun() && *final(self) == *final(b.tx),
                Err(e) => old(self)@.open_or_create(Seq::empty(), name@) == Err::<StagedView, Error>(e)
                    && *final(self) == *old(self),
            },
    {
        let at: Vec<u8> = match root_path(name) {
            Ok(at) => at,
            Err(e) => return Err(e),
        };
        proof {
            path::law_child_path_parts(Seq::empty(), name@);
        }
        if !self.bucket_will_exist(&at) {
            self.push_create(&at);
        }
        Ok(WriteBucket { tx: self, path: at })
    }

    /// Deletes a bucket and all of its keys.
    pub fn delete_bucket(&mut self, name: &[u8]) -> (r: Result<(), Error>)
        requires
            old(self).wf(),
        ensures
            final(self).wf(),
            final(self).begun() == old(self).begun(),
            match r {
                Ok(_) => old(self)@.delete_child(Seq::empty(), name@) == Ok::<StagedView, Error>(
                    final(self)@,
                ),
                Err(e) => old(self)@.delete_child(Seq::empty(), name@) == Err::<
                    StagedView,
                    Error,
                >(e) && *final(self) == *old(self),
            },
    {
        let at: Vec<u8> = match root_path(name) {
            Ok(at) => at,
            Err(e) => return Err(e),
        };
        if !self.bucket_will_exist(&at) {
            return Err(Error::BucketNotFound);
        }
        self.push_delete(&at);
        Ok(())
    }

    /// Inserts or replaces a key/value pair of a top-level bucket.
    pub fn put(&mut self, bucket: &[u8], key: &[u8], value: &[u8]) -> (r: Result<(), Error>)
        requires
            old(self).wf(),
        ensures
            final(self).wf(),
            final(self).begun() == old(self).begun(),
            ({
                let at = path::child_of(Seq::empty(), bucket@);
                match r {
                    Ok(_) => bucket@.len() <= u32::MAX && old(self)@.bucket_will_exist(at) && old(
                        self,
                    )@.put(at, key@, value@) == Ok::<StagedView, Error>(final(self)@),
                    Err(e) => *final(self) == *old(self) && (if bucket@.len() > u32::MAX {
                        e == Error::TooLarge
                    } else if !old(self)@.bucket_will_exist(at) {
                        e == Error::BucketNotFound
                    } else {
                        old(self)@.put(at, key@, value@) == Err::<StagedView, Error>(e)
                    }),
                }
            }),
    {
        let at: Vec<u8> = match root_path(bucket) {
            Ok(at) => at,
            Err(e) => return Err(e),
        };
        if !self.bucket_will_exist(&at) {
            return Err(Error::BucketNotFound);
        }
        self.put_at(&at, key, value)
    }

    /// Deletes a key of a top-level bucket.
    pub fn delete(&mut self, bucket: &[u8], key: &[u8]) -> (r: Result<(), Error>)
        requires
            old(self).wf(),
        ensures
            final(self).wf(),
            final(self).begun() == old(self).begun(),
            ({
                let at = path::child_of(Seq::empty(), bucket@);
                match r {
                    Ok(_) => bucket@.len() <= u32::MAX && old(self)@.bucket_will_exist(at) && old(
                        self,
                    )@.delete(at, key@) == Ok::<StagedView, Error>(final(self)@),
                    Err(e) => *final(self) == *old(self) && (if bucket@.len() > u32::MAX {
                        e == Error::TooLarge
                    } else if !old(self)@.bucket_will_exist(at) {
                        e == Error::BucketNotFound
                    } else {
                        old(self)@.delete(at, key@) == Err::<StagedView, Error>(e)
                    }),
                }
            }),
    {
        let at: Vec<u8> = match root_path(bucket) {
            Ok(at) => at,
            Err(e) => return Err(e),
        };
        if !self.bucket_will_exist(&at) {
            return Err(Error::BucketNotFound);
        }
        self.delete_at(&at, key)
    }

    fn put_at(&mut self, at: &[u8], key: &[u8], value: &[u8]) -> (r: Result<(), Error>)
        requires
            old(self).wf(),
        ensures
            final(self).wf(),
            final(self).begun() == old(self).begun(),
            match r {
                Ok(_) => old(self)@.put(at@, key@, value@) == Ok::<StagedView, Error>(
                    final(self)@,
                ),
                Err(e) => old(self)@.put(at@, key@, value@) == Err::<StagedView, Error>(e)
                    && *final(self) == *old(self),
            },
    {
        let child: Vec<u8> = match child_path(at, key) {
            Ok(child) => child,
            Err(e) => return Err(e),
        };
        if self.bucket_will_exist(&child) {
            return Err(Error::IncompatibleValue);
        }
        self.push(PUT, at, key, value);
        Ok(())
    }

    fn delete_at(&mut self, at: &[u8], key: &[u8]) -> (r: Result<(), Error>)
        requires
            old(self).wf(),
        ensures
            final(self).wf(),
            final(self).begun() == old(self).begun(),
            match r {
                Ok(_) => old(self)@.delete(at@, key@) == Ok::<StagedView, Error>(final(self)@),
                Err(e) => old(self)@.delete(at@, key@) == Err::<StagedView, Error>(e)
                    && *final(self) == *old(self),
            },
    {
        let child: Vec<u8> = match child_path(at, key) {
            Ok(child) => child,
            Err(e) => return Err(e),
        };
        if self.bucket_will_exist(&child) {
            return Err(Error::IncompatibleValue);
        }
        if !self.key_will_exist(at, key) {
            return Err(Error::KeyValueMissing);
        }
        let nothing: Vec<u8> = Vec::new();
        self.push(DELETE, at, key, &nothing);
        assert(nothing@ =~= Seq::<u8>::empty());
        Ok(())
    }
}

/// A bucket of a write transaction.
pub struct WriteBucket<'tx, 'db> {
    pub tx: &'tx mut WriteTransaction<'db>,
    pub path: Vec<u8>,
}

impl<'tx, 'db> WriteBucket<'tx, 'db> {
    /// Whether the bucket has a path and its transaction stands on a loaded
    /// database.
    pub open spec fn wf(&self) -> bool {
        self.tx.wf() && path::is_path(self.path@) && self.path@.len() > 0
    }

    /// What the transaction has staged.
    pub open spec fn staged(&self) -> StagedView {
        self.tx@
    }

    /// The counter the bucket will have.
    pub fn next_int(&self) -> (r: u64)
        requires
            self.wf(),
        ensures
            r == self.staged().next_int(self.path@),
    {
        self.tx.staged_next_int(&self.path)
    }

    /// Inserts or replaces a key/value pair.
    pub fn put(&mut self, key: &[u8], value: &[u8]) -> (r: Result<(), Error>)
        requires
            old(self).wf(),
        ensures
            final(self).wf(),
            final(self).path == old(self).path,
            final(self).tx.begun() == old(self).tx.begun(),
            *final(final(self).tx) == *final(old(self).tx),
            match r {
                Ok(_) => old(self).tx@.put(old(self).path@, key@, value@) == Ok::<
                    StagedView,
                    Error,
                >(final(self).tx@),
                Err(e) => old(self).tx@.put(old(self).path@, key@, value@) == Err::<
                    StagedView,
                    Error,
                >(e) && *final(self).tx == *old(self).tx,
            },
    {
        self.tx.put_at(&self.path, key, value)
    }

    /// Deletes a key.
    pub fn delete(&mut self, key: &[u8]) -> (r: Result<(), Error>)
        requires
            old(self).wf(),
        ensures
            final(self).wf(),
            final(self).path == old(self).path,
            final(self).tx.begun() == old(self).tx.begun(),
            *final(final(self).tx) == *final(old(self).tx),
            match r {
                Ok(_) => old(self).tx@.delete(old(self).path@, key@) == Ok::<StagedView, Error>(
                    final(self).tx@,
                ),
                Err(e) => old(self).tx@.delete(old(self).path@, key@) == Err::<
                    StagedView,
                    Error,
                >(e) && *final(self).tx == *old(self).tx,
            },
    {
        self.tx.delete_at(&self.path, key)
    }

    /// Creates a bucket in this one.
    pub fn create_bucket(&mut self, name: &[u8]) -> (r: Result<WriteBucket<'_, 'db>, Error>)
        requires
            old(self).wf(),
        ensures
            final(self).path == old(self).path,
            *final(final(self).tx) == *final(old(self).tx),
            match r {
                Ok(b) => old(self).tx@.create(old(self).path@, name@) == Ok::<StagedView, Error>(
                    b.tx@,
                ) && b.path@ == path::child_of(old(self).path@, name@) && b.wf() && b.tx.begun()
                    == old(self).tx.begun() && *final(self).tx == *final(b.tx),
                Err(e) => old(self).tx@.create(old(self).path@, name@) == Err::<StagedView, Error>(
                    e,
                ) && *final(self).tx == *old(self).tx,
            },
    {
        let at: Vec<u8> = match child_path(&self.path, name) {
            Ok(at) => at,
            Err(e) => return Err(e),
        };
        proof {
            path::law_child_path_parts(self.path@, name@);
        }
        if self.tx.bucket_will_exist(&at) {
            return Err(Error::BucketExists);
        }
        if self.tx.key_will_exist(&self.path, name) {
            return Err(Error::IncompatibleValue);
        }
        self.tx.push_create(&at);
        Ok(WriteBucket { tx: self.tx, path: at })
    }

    /// Opens a bucket in this one.
    pub fn get_bucket(&mut self, name: &[u8]) -> (r: Result<WriteBucket<'_, 'db>, Error>)
        requires
            old(self).wf(),
        ensures
            final(self).path == old(self).path,
            *final(final(self).tx) == *final(old(self).tx),
            match r {
                Ok(b) => old(self).tx@.open(old(self).path@, name@) == Ok::<StagedView, Error>(
                    b.tx@,
                ) && b.path@ == path::child_of(old(self).path@, name@) && b.wf() && b.tx.begun()
                    == old(self).tx.begun() && *final(self).tx == *final(b.tx),
                Err(e) => old(self).tx@.open(old(self).path@, name@) == Err::<StagedView, Error>(
                    e,
                ) && *final(self).tx == *old(self).tx,
            },
    {
        let at: Vec<u8> = match child_path(&self.path, name) {
            Ok(at) => at,
            Err(e) => return Err(e),
        };
        proof {
            path::law_child_path_parts(self.path@, name@);
        }
        if !self.tx.bucket_will_exist(&at) {
            if self.tx.key_will_exist(&self.path, name) {
                return Err(Error::IncompatibleValue);
            }
            return Err(Error::BucketNotFound);
        }
        Ok(WriteBucket { tx: self.tx, path: at })
    }

    /// Opens a bucket in this one, or creates it where there is none.
    pub fn get_or_create_bucket(&mut self, name: &[u8]) -> (r: Result<WriteBucket<'_, 'db>, Error>)
        requires
            old(self).wf(),
        ensures
            final(self).path == old(self).path,
            *final(final(self).tx) == *final(old(self).tx),
            match r {
                Ok(b) => old(self).tx@.open_or_create(old(self).path@, name@) == Ok::<StagedView, Error>(
                    b.tx@,
                ) && b.path@ == path::child_of(old(self).path@, name@) && b.wf() && b.tx.begun()
                    == old(self).tx.begun() && *final(self).tx == *final(b.tx),
                Err(e) => old(self).tx@.open_or_create(old(self).path@, name@) == Err::<StagedView, Error>(
                    e,
                ) && *final(self).tx == *old(self).tx,
            },
    {
        let at: Vec<u8> = match child_path(&self.path, name) {
            Ok(at) => at,
            Err(e) => return Err(e),
        };
        proof {
            path::law_child_path_parts(self.path@, name@);
        }
        if !self.tx.bucket_will_exist(&at) {
            if self.tx.key_will_exist(&self.path, name) {
                return Err(Error::IncompatibleValue);
            }
            self.tx.push_create(&at);
        }
        Ok(WriteBucket { tx: self.tx, path: at })
    }

    /// Deletes a bucket in this one, with everything in it.
    pub fn delete_bucket(&mut self, name: &[u8]) -> (r: Result<(), Error>)
        requires
            old(self).wf(),
        ensures
            final(self).wf(),
            final(self).path == old(self).path,
            final(self).tx.begun() == old(self).tx.begun(),
            *final(final(self).tx) == *final(old(self).tx),
            match r {
                Ok(_) => old(self).tx@.delete_child(old(self).path@, name@) == Ok::<
                    StagedView,
                    Error,
                >(final(self).tx@),
                Err(e) => old(self).tx@.delete_child(old(self).path@, name@) == Err::<
                    StagedView,
                    Error,
                >(e) && *final(self).tx == *old(self).tx,
            },
    {
        let at: Vec<u8> = match child_path(&self.path, name) {
            Ok(at) => at,
            Err(e) => return Err(e),
        };
        if !self.tx.bucket_will_exist(&at) {
            return Err(Error::BucketNotFound);
        }
        self.tx.push_delete(&at);
        Ok(())
    }
}

/// Whether nothing stands in the way of keeping a database in a file but the
/// lengths of its paths: buckets have their parents, no key is also the name
/// of a bucket, keys fit a path, and no bucket is without a name.
pub open spec fn consistent(m: Model) -> bool {
    &&& load::parents_present(m)
    &&& load::names_apart(m)
    &&& !m.contains_key(Seq::empty())
    &&& forall|at: Seq<u8>, key: Seq<u8>|
        m.contains_key(at) && #[trigger] m[at].entries.contains_key(key) ==> key.len() <= u32::MAX
}

/// Whether a transaction can be carried out: its operations apply, and they
/// leave a consistent database.
pub open spec fn foresees(t: StagedView) -> bool {
    let (m, failed) = state::applied(t.base, t.ops, t.ops.len() as int);
    failed is None && consistent(m)
}

/// A transaction knows what it leaves: every bucket, every key and every
/// counter is told as it will be.
pub proof fn law_staged_changes_are_foreseen(t: StagedView, at: Seq<u8>, key: Seq<u8>)
    requires
        foresees(t),
    ensures
        ({
            let m = state::applied(t.base, t.ops, t.ops.len() as int).0;
            &&& t.bucket_will_exist(at) == m.contains_key(at)
            &&& t.key_will_exist(at, key) == (m.contains_key(at) && m[at].entries.contains_key(key))
            &&& m.contains_key(at) ==> t.next_int(at) == m[at].next
        }),
{
    staged::law_staged_is_what_is_applied(t.base, t.ops, t.ops.len() as int, at, key);
    if at.len() == 0 {
        assert(at =~= Seq::<u8>::empty());
    }
}

/// A transaction that staged nothing can be carried out.
pub proof fn law_new_transaction_foresees(m: Model)
    requires
        consistent(m),
    ensures
        foresees(StagedView { base: m, ops: Seq::empty() }),
{
}

/// The last staged operation, applied.
proof fn lemma_last_applied(t: StagedView, op: OperationView)
    ensures
        ({
            let before = state::applied(t.base, t.ops, t.ops.len() as int);
            let now = t.staged(op);
            let after = state::applied(now.base, now.ops, now.ops.len() as int);
            after == (if before.1 is Some {
                before
            } else {
                match state::apply_op(before.0, op) {
                    Ok(m) => (m, None),
                    Err(e) => (before.0, Some(e)),
                }
            })
        }),
{
    let now = t.staged(op);
    lemma_applied_prefix(t.base, t.ops, now.ops, t.ops.len() as int);
}

proof fn lemma_applied_prefix(m: Model, a: Seq<OperationView>, b: Seq<OperationView>, n: int)
    requires
        0 <= n <= a.len() <= b.len(),
        forall|i: int| 0 <= i < a.len() ==> a[i] == b[i],
    ensures
        state::applied(m, a, n) == state::applied(m, b, n),
    decreases n,
{
    if n > 0 {
        lemma_applied_prefix(m, a, b, n - 1);
    }
}

/// Creating a bucket, at the top or in one that is there, can be carried out.
pub proof fn law_create_foresees(t: StagedView, parent: Seq<u8>, name: Seq<u8>)
    requires
        foresees(t),
        path::is_path(parent),
        parent.len() == 0 || t.bucket_will_exist(parent),
        t.create(parent, name) is Ok,
    ensures
        foresees(t.create(parent, name)->Ok_0),
{
    let at = path::child_of(parent, name);
    let op = (CREATE_BUCKET, at, Seq::<u8>::empty(), Seq::<u8>::empty());
    let u = t.creating(at);
    let m = state::applied(t.base, t.ops, t.ops.len() as int).0;
    let n = state::applied(u.base, u.ops, u.ops.len() as int).0;
    lemma_last_applied(t, op);
    law_staged_changes_are_foreseen(t, at, Seq::empty());
    law_staged_changes_are_foreseen(t, parent, name);
    path::law_child_path_parts(parent, name);
    crate::bytes::lemma_le_of_len(name.len(), 4);
    assert(at.len() >= 4);
    assert(state::create_bucket(m, at) == Ok::<Model, Error>(n));
    assert forall|p: Seq<u8>| #[trigger] n.contains_key(p) implies p == at || m.contains_key(p)
        && n[p].entries == m[p].entries by {}
    assert forall|p: Seq<u8>| #[trigger] n.contains_key(p) implies match path::parent_of(p) {
        None => false,
        Some(q) => q.len() == 0 || n.contains_key(q),
    } by {
        if p != at {
            assert(m.contains_key(p));
        }
    }
    assert forall|p: Seq<u8>, key: Seq<u8>|
        n.contains_key(p) && #[trigger] n[p].entries.contains_key(key) implies !n.contains_key(
        path::child_of(p, key),
    ) && key.len() <= u32::MAX by {
        assert(p != at);
        assert(m.contains_key(p) && m[p].entries.contains_key(key));
        if path::child_of(p, key) == at {
            assert(path::parent_of(p) is Some);
            path::law_child_path_injective(p, key, parent, name);
            if parent.len() == 0 {
                assert(parent =~= Seq::<u8>::empty());
            }
        }
    }
}

/// Opening or creating a bucket can be carried out where creating it can.
pub proof fn law_open_or_create_foresees(t: StagedView, parent: Seq<u8>, name: Seq<u8>)
    requires
        foresees(t),
        path::is_path(parent),
        parent.len() == 0 || t.bucket_will_exist(parent),
        t.open_or_create(parent, name) is Ok,
    ensures
        foresees(t.open_or_create(parent, name)->Ok_0),
{
    if !t.bucket_will_exist(path::child_of(parent, name)) {
        law_create_foresees(t, parent, name);
    }
}

/// Deleting a bucket can be carried out.
pub proof fn law_delete_bucket_foresees(t: StagedView, parent: Seq<u8>, name: Seq<u8>)
    requires
        foresees(t),
        t.delete_child(parent, name) is Ok,
    ensures
        foresees(t.delete_child(parent, name)->Ok_0),
{
    let at = path::child_of(parent, name);
    let op = (DELETE_BUCKET, at, Seq::<u8>::empty(), Seq::<u8>::empty());
    let u = t.deleting(at);
    let m = state::applied(t.base, t.ops, t.ops.len() as int).0;
    let n = state::applied(u.base, u.ops, u.ops.len() as int).0;
    lemma_last_applied(t, op);
    law_staged_changes_are_foreseen(t, at, Seq::empty());
    assert(state::delete_bucket(m, at) == Ok::<Model, Error>(n));
    assert forall|p: Seq<u8>| #[trigger] n.contains_key(p) implies m.contains_key(p) && n[p] == m[p]
        && !at.is_prefix_of(p) by {}
    assert forall|p: Seq<u8>| #[trigger] n.contains_key(p) implies match path::parent_of(p) {
        None => false,
        Some(q) => q.len() == 0 || n.contains_key(q),
    } by {
        assert(m.contains_key(p));
        let q = path::parent_of(p)->0;
        if q.len() > 0 && at.is_prefix_of(q) {
            lemma_parent_is_prefix(p);
            assert(at =~= p.take(at.len() as int));
        }
    }
    assert forall|p: Seq<u8>, key: Seq<u8>|
        n.contains_key(p) && #[trigger] n[p].entries.contains_key(key) implies !n.contains_key(
        path::child_of(p, key),
    ) && key.len() <= u32::MAX by {
        assert(m.contains_key(p) && m[p].entries.contains_key(key));
    }
}

proof fn lemma_parent_is_prefix(p: Seq<u8>)
    requires
        path::parent_of(p) is Some,
    ensures
        path::parent_of(p)->0.is_prefix_of(p),
{
    lemma_last_start_bound(p, 0, 0);
}

proof fn lemma_last_start_bound(p: Seq<u8>, cursor: int, previous: int)
    requires
        0 <= previous <= cursor,
        previous <= p.len(),
        path::last_start(p, cursor, previous) is Some,
    ensures
        0 <= path::last_start(p, cursor, previous)->0 <= p.len(),
    decreases p.len() - cursor,
{
    if cursor < p.len() {
        let next = cursor + 4 + crate::bytes::le_at(p, cursor, 4);
        lemma_last_start_bound(p, next, cursor);
    }
}

/// Storing a value in a bucket that is there can be carried out.
pub proof fn law_put_foresees(t: StagedView, at: Seq<u8>, key: Seq<u8>, value: Seq<u8>)
    requires
        foresees(t),
        t.bucket_will_exist(at),
        t.put(at, key, value) is Ok,
    ensures
        foresees(t.put(at, key, value)->Ok_0),
{
    let op = (PUT, at, key, value);
    let u = t.staged(op);
    let m = state::applied(t.base, t.ops, t.ops.len() as int).0;
    let n = state::applied(u.base, u.ops, u.ops.len() as int).0;
    lemma_last_applied(t, op);
    law_staged_changes_are_foreseen(t, at, key);
    law_staged_changes_are_foreseen(t, path::child_of(at, key), key);
    assert(state::put(m, at, key, value) == Ok::<Model, Error>(n));
    assert forall|p: Seq<u8>| #[trigger] n.contains_key(p) implies match path::parent_of(p) {
        None => false,
        Some(q) => q.len() == 0 || n.contains_key(q),
    } by {
        assert(m.contains_key(p));
    }
    assert forall|p: Seq<u8>, k: Seq<u8>|
        n.contains_key(p) && #[trigger] n[p].entries.contains_key(k) implies !n.contains_key(
        path::child_of(p, k),
    ) && k.len() <= u32::MAX by {
        if !(p == at && k == key) {
            assert(m.contains_key(p) && m[p].entries.contains_key(k));
        }
    }
}

/// Deleting a key can be carried out.
pub proof fn law_delete_foresees(t: StagedView, at: Seq<u8>, key: Seq<u8>)
    requires
        foresees(t),
        t.delete(at, key) is Ok,
    ensures
        foresees(t.delete(at, key)->Ok_0),
{
    let op = (DELETE, at, key, Seq::<u8>::empty());
    let u = t.staged(op);
    let m = state::applied(t.base, t.ops, t.ops.len() as int).0;
    let n = state::applied(u.base, u.ops, u.ops.len() as int).0;
    lemma_last_applied(t, op);
    law_staged_changes_are_foreseen(t, at, key);
    assert(state::delete(m, at, key) == Ok::<Model, Error>(n));
    assert forall|p: Seq<u8>| #[trigger] n.contains_key(p) implies match path::parent_of(p) {
        None => false,
        Some(q) => q.len() == 0 || n.contains_key(q),
    } by {
        assert(m.contains_key(p));
    }
    assert forall|p: Seq<u8>, k: Seq<u8>|
        n.contains_key(p) && #[trigger] n[p].entries.contains_key(k) implies !n.contains_key(
        path::child_of(p, k),
    ) && k.len() <= u32::MAX by {
        assert(m.contains_key(p) && m[p].entries.contains_key(k));
    }
}

} // verus!
