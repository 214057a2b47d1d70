//! Groups of writes to typed collections.

use crate::api::bucket::{self, Bucket, Space};
use crate::api::changes::{self, owned_path};
use crate::api::tree;
use crate::api::ttl;
use crate::api::tx::Tx;
use crate::application::definition::CollectionDef;
use crate::application::open;
use crate::application::writing::{self, WriteOptions};
use crate::bytes::owned;
use crate::error::Error;
use crate::typed::{CodecError, KeyCodec, ValueCodec};
use vstd::prelude::*;

verus! {

/// One encoded write.
pub enum BatchOperation {
    Insert { path: Vec<Vec<u8>>, key: Vec<u8>, value: Vec<u8>, expires_at: Option<u64> },
    Remove { path: Vec<Vec<u8>>, key: Vec<u8> },
}

/// A write by what it holds.
pub enum OperationView {
    Insert { path: Seq<Seq<u8>>, key: Seq<u8>, value: Seq<u8>, expires_at: Option<u64> },
    Remove { path: Seq<Seq<u8>>, key: Seq<u8> },
}

impl View for BatchOperation {
    type V = OperationView;

    open spec fn view(&self) -> OperationView {
        match self {
            BatchOperation::Insert { path, key, value, expires_at } => OperationView::Insert {
                path: changes::path_view(path@),
                key: key@,
                value: value@,
                expires_at: *expires_at,
            },
            BatchOperation::Remove { path, key } => OperationView::Remove {
                path: changes::path_view(path@),
                key: key@,
            },
        }
    }
}

/// What writes hold.
pub open spec fn operations_view(operations: Seq<BatchOperation>) -> Seq<OperationView> {
    operations.map_values(|o: BatchOperation| o@)
}

/// Performing a write in its bucket.
pub open spec fn performed(b: Space, o: OperationView) -> (Result<(), Error>, Space) {
    match o {
        OperationView::Insert { path, key, value, expires_at } => match writing::inserted(
            b,
            path,
            key,
            value,
            expires_at,
        ) {
            (Ok(_), b) => (Ok(()), b),
            (Err(e), b) => (Err(e), b),
        },
        OperationView::Remove { path, key } => if tree::value_of(b.tree, key) is Some {
            ttl::removed(b, path, key)
        } else {
            ttl::unexpiring(b, key)
        },
    }
}

/// Where a write takes place.
pub open spec fn place_of(o: OperationView) -> Seq<Seq<u8>> {
    match o {
        OperationView::Insert { path, .. } => path,
        OperationView::Remove { path, .. } => path,
    }
}

/// Performing a write.
pub open spec fn applied(s: Space, o: OperationView) -> (Result<(), Error>, Space) {
    match open::at_path(s.tree, place_of(o)) {
        Err(e) => (Err(e), s),
        Ok(sub) => {
            let (r, b) = performed(Space { tree: sub, log: s.log }, o);
            (r, Space { tree: open::with_at(s.tree, place_of(o), b.tree), log: b.log })
        },
    }
}

/// Performing several writes, up to the first that fails.
pub open spec fn applied_all(s: Space, operations: Seq<OperationView>) -> (
    Result<(), Error>,
    Space,
)
    decreases operations.len(),
{
    if operations.len() == 0 {
        (Ok(()), s)
    } else {
        match applied_all(s, operations.drop_last()) {
            (Err(e), s) => (Err(e), s),
            (Ok(_), s) => applied(s, operations.last()),
        }
    }
}

/// What follows a write that fails does not matter.
pub proof fn lemma_applied_all_stops(s: Space, operations: Seq<OperationView>, n: int)
    requires
        0 <= n <= operations.len(),
        applied_all(s, operations.take(n)).0 is Err,
    ensures
        applied_all(s, operations) == applied_all(s, operations.take(n)),
    decreases operations.len(),
{
    if n < operations.len() {
        assert(operations.drop_last().take(n) =~= operations.take(n));
        lemma_applied_all_stops(s, operations.drop_last(), n);
    } else {
        assert(operations.take(n) =~= operations);
    }
}

/// An encoded group of writes spanning any number of typed collections.
///
/// Applying the batch mutates the enclosing transaction; durability and
/// all-or-nothing publication are still controlled by that transaction.
pub struct Batch<'t> {
    pub tx: &'t mut Tx,
    pub operations: Vec<BatchOperation>,
}

impl Tx {
    /// Starts an encoded multi-collection batch in this write transaction.
    pub fn batch(&mut self) -> (r: Batch<'_>)
        requires
            old(self).wf(),
        ensures
            r.wf(),
            *r.tx == *old(self),
            *final(self) == *final(r.tx),
            r.operations@.len() == 0,
    {
        Batch { tx: self, operations: Vec::new() }
    }
}

/// Performs a write in its bucket.
fn perform(mut b: Bucket<'_>, operation: BatchOperation) -> (r: Result<(), Error>)
    requires
        b.wf(),
        b.writable,
        b.at() == place_of(operation@),
    ensures
        final(b.node).wf(),
        final(b.log).wf(),
        (r, bucket::space(*final(b.node), *final(b.log))) == performed(
            bucket::space(*old(b.node), *old(b.log)),
            operation@,
        ),
{
    match operation {
        BatchOperation::Insert { path, key, value, expires_at } => match expires_at {
            Some(deadline) => match b.put_with_ttl(&key, value, deadline) {
                Ok(_) => Ok(()),
                Err(e) => Err(e),
            },
            None => match b.put_lasting(&key, value) {
                Ok(_) => Ok(()),
                Err(e) => Err(e),
            },
        },
        BatchOperation::Remove { path, key } => {
            if b.get_kv(&key).is_some() {
                match b.delete(&key) {
                    Ok(_) => {},
                    Err(e) => return Err(e),
                }
            }
            match b.clear_ttl(&key) {
                Ok(_) => Ok(()),
                Err(e) => Err(e),
            }
        },
    }
}

impl<'t> Batch<'t> {
    /// Whether the transaction is in order, and can be written to once there
    /// is something to write.
    pub open spec fn wf(&self) -> bool {
        self.tx.wf() && (self.operations@.len() > 0 ==> self.tx.writable)
    }

    /// Adds the storing of a value that does not expire.
    pub fn insert<K, V, C: KeyCodec<K> + ValueCodec<V>>(
        &mut self,
        def: &CollectionDef<K, V, C>,
        key: &K,
        value: &V,
    ) -> (r: Result<(), CodecError>)
        requires
            old(self).wf(),
        ensures
            final(self).wf(),
            final(self).tx.id == old(self).tx.id,
            final(self).tx.writable == old(self).tx.writable,
            *final(final(self).tx) == *final(old(self).tx),
            queued(
                *old(self),
                *final(self),
                *def,
                def.codec.key_bytes(*key),
                def.codec.value_bytes(*value),
                None,
                r,
            ),
    {
        self.insert_with_options(def, key, value, WriteOptions { expires_at: None })
    }

    /// Adds the storing of a value. Its collection is opened at once.
    pub fn insert_with_options<K, V, C: KeyCodec<K> + ValueCodec<V>>(
        &mut self,
        def: &CollectionDef<K, V, C>,
        key: &K,
        value: &V,
        options: WriteOptions,
    ) -> (r: Result<(), CodecError>)
        requires
            old(self).wf(),
        ensures
            final(self).wf(),
            final(self).tx.id == old(self).tx.id,
            final(self).tx.writable == old(self).tx.writable,
            *final(final(self).tx) == *final(old(self).tx),
            queued(
                *old(self),
                *final(self),
                *def,
                def.codec.key_bytes(*key),
                def.codec.value_bytes(*value),
                options.expires_at,
                r,
            ),
    {
        let k: Vec<u8> = match def.codec.encode_key(key) {
            Ok(k) => k,
            Err(e) => return Err(e),
        };
        let v: Vec<u8> = match def.codec.encode_value(value) {
            Ok(v) => v,
            Err(e) => return Err(e),
        };
        let path: Vec<Vec<u8>> = match self.tx.open_collection(def) {
            Ok(path) => path,
            Err(e) => return Err(e),
        };
        let ghost was = operations_view(self.operations@);
        let operation: BatchOperation = BatchOperation::Insert {
            path,
            key: k,
            value: v,
            expires_at: options.expires_at,
        };
        let ghost new = operation@;
        self.operations.push(operation);
        assert(operations_view(self.operations@) =~= was.push(new));
        Ok(())
    }

    /// Adds the removal of a value. Its collection is opened at once.
    pub fn remove<K, V, C: KeyCodec<K> + ValueCodec<V>>(
        &mut self,
        def: &CollectionDef<K, V, C>,
        key: &K,
    ) -> (r: Result<(), CodecError>)
        requires
            old(self).wf(),
        ensures
            final(self).wf(),
            final(self).tx.id == old(self).tx.id,
            final(self).tx.writable == old(self).tx.writable,
            *final(final(self).tx) == *final(old(self).tx),
            ({
                let before = operations_view(old(self).operations@);
                let after = operations_view(final(self).operations@);
                match def.codec.key_bytes(*key) {
                    None => r is Err && final(self).tx.space() == old(self).tx.space() && after
                        == before,
                    Some(k) => {
                        let (want, s) = open::opened(
                            old(self).tx.space(),
                            old(self).tx.writable,
                            *def,
                        );
                        &&& final(self).tx.space() == s
                        &&& r == want
                        &&& after == match want {
                            Ok(_) => before.push(
                                OperationView::Remove { path: def.path(), key: k },
                            ),
                            Err(_) => before,
                        }
                    },
                }
            }),
    {
        let k: Vec<u8> = match def.codec.encode_key(key) {
            Ok(k) => k,
            Err(e) => return Err(e),
        };
        let path: Vec<Vec<u8>> = match self.tx.open_collection(def) {
            Ok(path) => path,
            Err(e) => return Err(e),
        };
        let ghost was = operations_view(self.operations@);
        let operation: BatchOperation = BatchOperation::Remove { path, key: k };
        let ghost new = operation@;
        self.operations.push(operation);
        assert(operations_view(self.operations@) =~= was.push(new));
        Ok(())
    }

    /// How many writes there are.
    pub fn len(&self) -> (r: usize)
        ensures
            r == self.operations@.len(),
    {
        self.operations.len()
    }

    /// Whether there are no writes.
    pub fn is_empty(&self) -> (r: bool)
        ensures
            r == (self.operations@.len() == 0),
    {
        self.operations.len() == 0
    }

    /// Performs the writes, up to the first that fails; how many there are.
    pub fn apply(self) -> (r: Result<usize, CodecError>)
        requires
            self.wf(),
        ensures
            final(self.tx).wf(),
            final(self.tx).id == old(self.tx).id,
            final(self.tx).writable == old(self.tx).writable,
            ({
                let (want, after) = applied_all(
                    old(self.tx).space(),
                    operations_view(self.operations@),
                );
                &&& final(self.tx).space() == after
                &&& match want {
                    Ok(_) => r matches Ok(n) && n == self.operations@.len(),
                    Err(e) => r matches Err(f) && f == CodecError::Storage(e),
                }
            }),
    {
        let Batch { tx, operations } = self;
        let ghost s = tx.space();
        let ghost all = operations_view(operations@);
        let ghost writable = tx.writable;
        let ghost id = tx.id;
        let count: usize = operations.len();
        let mut i: usize = 0;
        assert(all.take(0) =~= Seq::<OperationView>::empty());
        while i < count
            invariant
                i <= count,
                count == operations@.len(),
                all == operations_view(operations@),
                s == old(self.tx).space(),
                all == operations_view(self.operations@),
                tx.wf(),
                count > 0 ==> tx.writable,
                tx.writable == old(self.tx).writable,
                tx.id == old(self.tx).id,
                *final(tx) == *final(self.tx),
                applied_all(s, all.take(i as int)) == (Ok::<(), Error>(()), tx.space()),
            decreases count - i,
        {
            let ghost before = tx.space();
            proof {
                assert(all.take(i + 1).drop_last() =~= all.take(i as int));
                assert(all.take(i + 1).last() == operations@[i as int]@);
            }
            let operation: BatchOperation = copied(&operations[i]);
            let path: Vec<Vec<u8>> = match &operation {
                BatchOperation::Insert { path, .. } => owned_path(path),
                BatchOperation::Remove { path, .. } => owned_path(path),
            };
            assert(changes::path_view(path@) == place_of(operation@));
            let done: Result<(), Error> = match tx.bucket_at(path) {
                Ok(b) => perform(b, operation),
                Err(e) => {
                    Err(e)
                },
            };
            assert((done, tx.space()) == applied(before, operations@[i as int]@));
            match done {
                Ok(_) => {},
                Err(e) => {
                    proof {
                        lemma_applied_all_stops(s, all, i + 1);
                    }
                    return Err(CodecError::Storage(e));
                },
            }
            i = i + 1;
        }
        assert(all.take(i as int) =~= all);
        Ok(count)
    }
}

/// Whether a result, and a batch after it, are those of adding the storing of
/// a value.
pub open spec fn queued<K, V, C>(
    before: Batch<'_>,
    after: Batch<'_>,
    def: CollectionDef<K, V, C>,
    key: Option<Seq<u8>>,
    value: Option<Seq<u8>>,
    expires_at: Option<u64>,
    r: Result<(), CodecError>,
) -> bool {
    let was = operations_view(before.operations@);
    let now = operations_view(after.operations@);
    match (key, value) {
        (Some(k), Some(v)) => {
            let (want, s) = open::opened(before.tx.space(), before.tx.writable, def);
            &&& after.tx.space() == s
            &&& r == want
            &&& now == match want {
                Ok(_) => was.push(
                    OperationView::Insert { path: def.path(), key: k, value: v, expires_at },
                ),
                Err(_) => was,
            }
        },
        _ => r is Err && after.tx.space() == before.tx.space() && now == was,
    }
}

fn copied(operation: &BatchOperation) -> (r: BatchOperation)
    ensures
        r@ == operation@,
{
    match operation {
        BatchOperation::Insert { path, key, value, expires_at } => BatchOperation::Insert {
            path: owned_path(path),
            key: owned(key),
            value: owned(value),
            expires_at: *expires_at,
        },
        BatchOperation::Remove { path, key } => BatchOperation::Remove {
            path: owned_path(path),
            key: owned(key),
        },
    }
}

} // verus!
