//! Buckets of a transaction, whose changes are noted.

use crate::api::changes::{
    self, owned_path, ChangeOperation, ChangeTracker, ChangeView, TrackerView,
};
use crate::api::tree::{self, Leaf, Node, Tree};
use crate::bytes::owned;
use crate::error::Error;
use vstd::prelude::*;

verus! {

/// What a bucket holds, with the changes noted so far.
pub struct Space {
    pub tree: Tree,
    pub log: TrackerView,
}

/// A note of a change to a key of the bucket at `path`.
pub open spec fn noted(
    log: TrackerView,
    path: Seq<Seq<u8>>,
    key: Seq<u8>,
    operation: ChangeOperation,
) -> TrackerView {
    changes::recorded(log, ChangeView { path, key, operation })
}

/// Storing a value, with a note.
pub open spec fn put(s: Space, path: Seq<Seq<u8>>, key: Seq<u8>, value: Seq<u8>) -> (
    Result<Option<Seq<u8>>, Error>,
    Space,
) {
    match tree::put(s.tree, key, value) {
        Err(e) => (Err(e), s),
        Ok((before, t)) => (
            Ok(before),
            Space { tree: t, log: noted(s.log, path, key, ChangeOperation::Put) },
        ),
    }
}

/// Removing a value, with a note.
pub open spec fn delete(s: Space, path: Seq<Seq<u8>>, key: Seq<u8>) -> (
    Result<Seq<u8>, Error>,
    Space,
) {
    match tree::delete(s.tree, key) {
        Err(e) => (Err(e), s),
        Ok((value, t)) => (
            Ok(value),
            Space { tree: t, log: noted(s.log, path, key, ChangeOperation::Delete) },
        ),
    }
}

/// Making a nested bucket, with a note.
pub open spec fn create(s: Space, path: Seq<Seq<u8>>, name: Seq<u8>) -> (Result<(), Error>, Space) {
    match tree::create_bucket(s.tree, name) {
        Err(e) => (Err(e), s),
        Ok(t) => (
            Ok(()),
            Space { tree: t, log: noted(s.log, path, name, ChangeOperation::BucketCreate) },
        ),
    }
}

/// Making a nested bucket where there is nothing, with a note if it was made.
pub open spec fn ensure(s: Space, path: Seq<Seq<u8>>, name: Seq<u8>) -> (Result<(), Error>, Space) {
    match tree::ensured(s.tree, name) {
        Err(e) => (Err(e), s),
        Ok(t) => (
            Ok(()),
            Space {
                tree: t,
                log: if s.tree.items.contains_key(name) {
                    s.log
                } else {
                    noted(s.log, path, name, ChangeOperation::BucketCreate)
                },
            },
        ),
    }
}

/// Removing a nested bucket, with a note.
pub open spec fn discard(s: Space, path: Seq<Seq<u8>>, name: Seq<u8>) -> (
    Result<(), Error>,
    Space,
) {
    match tree::delete_bucket(s.tree, name) {
        Err(e) => (Err(e), s),
        Ok(t) => (
            Ok(()),
            Space { tree: t, log: noted(s.log, path, name, ChangeOperation::BucketDelete) },
        ),
    }
}

/// A space by what is in it.
pub open spec fn space(node: Node, log: ChangeTracker) -> Space {
    Space { tree: node@, log: log@ }
}

/// Stores a value in the bucket at `path`.
pub fn put_at(
    node: &mut Node,
    log: &mut ChangeTracker,
    path: &Vec<Vec<u8>>,
    key: &[u8],
    value: Vec<u8>,
) -> (r: Result<Option<Vec<u8>>, Error>)
    requires
        old(node).wf(),
        old(log).wf(),
    ensures
        final(node).wf(),
        final(log).wf(),
        ({
            let (want, after) = put(
                space(*old(node), *old(log)),
                changes::path_view(path@),
                key@,
                value@,
            );
            &&& space(*final(node), *final(log)) == after
            &&& match (r, want) {
                (Ok(before), Ok(was)) => tree::seen(before) == was,
                (Err(e), Err(f)) => e == f,
                _ => false,
            }
        }),
{
    match node.put(key, value) {
        Ok(before) => {
            log.record(path, key, ChangeOperation::Put);
            Ok(before)
        },
        Err(e) => Err(e),
    }
}

/// Removes a value from the bucket at `path`.
pub fn delete_at(node: &mut Node, log: &mut ChangeTracker, path: &Vec<Vec<u8>>, key: &[u8]) -> (r:
    Result<Vec<u8>, Error>)
    requires
        old(node).wf(),
        old(log).wf(),
    ensures
        final(node).wf(),
        final(log).wf(),
        ({
            let (want, after) = delete(
                space(*old(node), *old(log)),
                changes::path_view(path@),
                key@,
            );
            &&& space(*final(node), *final(log)) == after
            &&& match (r, want) {
                (Ok(value), Ok(was)) => value@ == was,
                (Err(e), Err(f)) => e == f,
                _ => false,
            }
        }),
{
    match node.delete(key) {
        Ok(value) => {
            log.record(path, key, ChangeOperation::Delete);
            Ok(value)
        },
        Err(e) => Err(e),
    }
}

/// Makes a nested bucket in the bucket at `path`.
pub fn create_at(node: &mut Node, log: &mut ChangeTracker, path: &Vec<Vec<u8>>, name: &[u8]) -> (r:
    Result<(), Error>)
    requires
        old(node).wf(),
        old(log).wf(),
    ensures
        final(node).wf(),
        final(log).wf(),
        (r, space(*final(node), *final(log))) == create(
            space(*old(node), *old(log)),
            changes::path_view(path@),
            name@,
        ),
{
    match node.create_bucket(name) {
        Ok(_) => {
            log.record(path, name, ChangeOperation::BucketCreate);
            Ok(())
        },
        Err(e) => Err(e),
    }
}

/// Makes a nested bucket in the bucket at `path`, where there is nothing.
pub fn ensure_at(node: &mut Node, log: &mut ChangeTracker, path: &Vec<Vec<u8>>, name: &[u8]) -> (r:
    Result<(), Error>)
    requires
        old(node).wf(),
        old(log).wf(),
    ensures
        final(node).wf(),
        final(log).wf(),
        (r, space(*final(node), *final(log))) == ensure(
            space(*old(node), *old(log)),
            changes::path_view(path@),
            name@,
        ),
{
    match node.ensure_bucket(name) {
        Ok(made) => {
            if made {
                log.record(path, name, ChangeOperation::BucketCreate);
            }
            Ok(())
        },
        Err(e) => Err(e),
    }
}

/// Removes a nested bucket from the bucket at `path`.
pub fn discard_at(node: &mut Node, log: &mut ChangeTracker, path: &Vec<Vec<u8>>, name: &[u8]) -> (r:
    Result<(), Error>)
    requires
        old(node).wf(),
        old(log).wf(),
    ensures
        final(node).wf(),
        final(log).wf(),
        (r, space(*final(node), *final(log))) == discard(
            space(*old(node), *old(log)),
            changes::path_view(path@),
            name@,
        ),
{
    match node.delete_bucket(name) {
        Ok(_) => {
            log.record(path, name, ChangeOperation::BucketDelete);
            Ok(())
        },
        Err(e) => Err(e),
    }
}

/// The path of a nested bucket.
pub fn path_below(path: &Vec<Vec<u8>>, name: &[u8]) -> (r: Vec<Vec<u8>>)
    ensures
        changes::path_view(r@) == changes::path_view(path@).push(name@),
{
    let mut out: Vec<Vec<u8>> = owned_path(path);
    let ghost was = changes::path_view(out@);
    out.push(owned(name));
    assert(changes::path_view(out@) =~= was.push(name@));
    out
}

/// A bucket of a transaction.
///
/// Buckets contain a collection of data, sorted by key. The data can either be
/// key / value pairs, or nested buckets. A counter keeps track of how many
/// unique keys have been inserted into the bucket.
pub struct Bucket<'a> {
    pub node: &'a mut Node,
    pub log: &'a mut ChangeTracker,
    pub path: Vec<Vec<u8>>,
    pub writable: bool,
}

impl<'a> Bucket<'a> {
    /// Whether the bucket and the notes are in order.
    pub open spec fn wf(&self) -> bool {
        self.node.wf() && self.log.wf()
    }

    /// What the bucket holds, with the changes noted so far.
    pub open spec fn space(&self) -> Space {
        space(*self.node, *self.log)
    }

    /// Where the bucket is.
    pub open spec fn at(&self) -> Seq<Seq<u8>> {
        changes::path_view(self.path@)
    }

    /// Adds to or replaces key / value data in the bucket. Returns an error if
    /// the key is that of a bucket instead of a key / value pair.
    pub fn put(&mut self, key: &[u8], value: Vec<u8>) -> (r: Result<Option<Vec<u8>>, Error>)
        requires
            old(self).wf(),
        ensures
            final(self).wf(),
            final(self).path == old(self).path,
            final(self).writable == old(self).writable,
            *final(final(self).node) == *final(old(self).node),
            *final(final(self).log) == *final(old(self).log),
            if !old(self).writable {
                r == Err::<Option<Vec<u8>>, Error>(Error::ReadOnlyTx) && final(self).space() == old(
                    self,
                ).space()
            } else {
                let (want, after) = put(old(self).space(), old(self).at(), key@, value@);
                &&& final(self).space() == after
                &&& match (r, want) {
                    (Ok(before), Ok(was)) => tree::seen(before) == was,
                    (Err(e), Err(f)) => e == f,
                    _ => false,
                }
            },
    {
        if !self.writable {
            return Err(Error::ReadOnlyTx);
        }
        put_at(self.node, self.log, &self.path, key, value)
    }

    /// The data under a key.
    pub fn get(&self, key: &[u8]) -> (r: Option<&Leaf>)
        requires
            self.wf(),
        ensures
            match r {
                Some(leaf) => leaf.wf() && self.space().tree.items.contains_key(key@)
                    && self.space().tree.items[key@] == leaf.item(),
                None => !self.space().tree.items.contains_key(key@),
            },
    {
        self.node.get(key)
    }

    /// The value under a key.
    pub fn get_kv(&self, key: &[u8]) -> (r: Option<&Vec<u8>>)
        requires
            self.wf(),
        ensures
            match r {
                Some(value) => tree::value_of(self.space().tree, key@) == Some(value@),
                None => tree::value_of(self.space().tree, key@) is None,
            },
    {
        self.node.get_kv(key)
    }

    /// Deletes a key / value pair from the bucket.
    pub fn delete(&mut self, key: &[u8]) -> (r: Result<Vec<u8>, Error>)
        requires
            old(self).wf(),
        ensures
            final(self).wf(),
            final(self).path == old(self).path,
            final(self).writable == old(self).writable,
            *final(final(self).node) == *final(old(self).node),
            *final(final(self).log) == *final(old(self).log),
            if !old(self).writable {
                r == Err::<Vec<u8>, Error>(Error::ReadOnlyTx) && final(self).space() == old(
                    self,
                ).space()
            } else {
                let (want, after) = delete(old(self).space(), old(self).at(), key@);
                &&& final(self).space() == after
                &&& match (r, want) {
                    (Ok(value), Ok(was)) => value@ == was,
                    (Err(e), Err(f)) => e == f,
                    _ => false,
                }
            },
    {
        if !self.writable {
            return Err(Error::ReadOnlyTx);
        }
        delete_at(self.node, self.log, &self.path, key)
    }

    /// Gets an already created bucket.
    pub fn get_bucket(&mut self, name: &[u8]) -> (r: Result<Bucket<'_>, Error>)
        requires
            old(self).wf(),
        ensures
            final(self).path == old(self).path,
            final(self).writable == old(self).writable,
            *final(final(self).node) == *final(old(self).node),
            *final(final(self).log) == *final(old(self).log),
            match r {
                Ok(b) => {
                    &&& tree::child_of(old(self).space().tree, name@) == Ok::<Tree, Error>(
                        b.space().tree,
                    )
                    &&& b.wf()
                    &&& b.space().log == old(self).space().log
                    &&& b.at() == old(self).at().push(name@)
                    &&& b.writable == old(self).writable
                    &&& *final(self).log == *final(b.log)
                    &&& final(b.node).wf() ==> final(self).node.wf() && final(self).node@
                        == tree::with_child(old(self).space().tree, name@, final(b.node)@)
                },
                Err(e) => tree::child_of(old(self).space().tree, name@) == Err::<Tree, Error>(e)
                    && *final(self).node == *old(self).node && *final(self).log == *old(self).log,
            },
    {
        let path: Vec<Vec<u8>> = path_below(&self.path, name);
        match self.node.child_mut(name) {
            Ok(node) => Ok(Bucket { node, log: self.log, path, writable: self.writable }),
            Err(e) => Err(e),
        }
    }

    /// Creates a new bucket.
    pub fn create_bucket(&mut self, name: &[u8]) -> (r: Result<Bucket<'_>, Error>)
        requires
            old(self).wf(),
        ensures
            final(self).path == old(self).path,
            final(self).writable == old(self).writable,
            *final(final(self).node) == *final(old(self).node),
            *final(final(self).log) == *final(old(self).log),
            ({
                let (want, after) = create(old(self).space(), old(self).at(), name@);
                match r {
                    Ok(b) => {
                        &&& old(self).writable
                        &&& want is Ok
                        &&& b.space() == (Space { tree: tree::empty_tree(), log: after.log })
                        &&& b.wf()
                        &&& b.at() == old(self).at().push(name@)
                        &&& b.writable
                        &&& *final(self).log == *final(b.log)
                        &&& final(b.node).wf() ==> final(self).node.wf() && final(self).node@
                            == tree::with_child(after.tree, name@, final(b.node)@)
                    },
                    Err(e) => *final(self).node == *old(self).node && *final(self).log == *old(
                        self,
                    ).log && if !old(self).writable {
                        e == Error::ReadOnlyTx
                    } else {
                        want == Err::<(), Error>(e)
                    },
                }
            }),
    {
        if !self.writable {
            return Err(Error::ReadOnlyTx);
        }
        match self.node.get(name) {
            Some(leaf) => {
                proof {
                    leaf.lemma_item();
                }
                return match leaf {
                    Leaf::Kv(_) => Err(Error::IncompatibleValue),
                    Leaf::Bucket(_) => Err(Error::BucketExists),
                };
            },
            None => {},
        }
        let _made: Result<(), Error> = create_at(self.node, self.log, &self.path, name);
        self.get_bucket(name)
    }

    /// Creates a new bucket if it doesn't exist.
    pub fn get_or_create_bucket(&mut self, name: &[u8]) -> (r: Result<Bucket<'_>, Error>)
        requires
            old(self).wf(),
        ensures
            final(self).path == old(self).path,
            final(self).writable == old(self).writable,
            *final(final(self).node) == *final(old(self).node),
            *final(final(self).log) == *final(old(self).log),
            ({
                let (want, after) = ensure(old(self).space(), old(self).at(), name@);
                match r {
                    Ok(b) => {
                        &&& old(self).writable
                        &&& want is Ok
                        &&& tree::child_of(after.tree, name@) == Ok::<Tree, Error>(b.space().tree)
                        &&& b.space().log == after.log
                        &&& b.wf()
                        &&& b.at() == old(self).at().push(name@)
                        &&& b.writable
                        &&& *final(self).log == *final(b.log)
                        &&& final(b.node).wf() ==> final(self).node.wf() && final(self).node@
                            == tree::with_child(after.tree, name@, final(b.node)@)
                    },
                    Err(e) => *final(self).node == *old(self).node && *final(self).log == *old(
                        self,
                    ).log && if !old(self).writable {
                        e == Error::ReadOnlyTx
                    } else {
                        want == Err::<(), Error>(e)
                    },
                }
            }),
    {
        if !self.writable {
            return Err(Error::ReadOnlyTx);
        }
        let missing: bool = match self.node.get(name) {
            Some(leaf) => {
                proof {
                    leaf.lemma_item();
                }
                match leaf {
                    Leaf::Kv(_) => return Err(Error::IncompatibleValue),
                    Leaf::Bucket(_) => false,
                }
            },
            None => true,
        };
        if missing {
            let _made: Result<(), Error> = create_at(self.node, self.log, &self.path, name);
        }
        self.get_bucket(name)
    }

    /// Deletes a bucket, with all that is in it.
    pub fn delete_bucket(&mut self, name: &[u8]) -> (r: Result<(), Error>)
        requires
            old(self).wf(),
        ensures
            final(self).wf(),
            final(self).path == old(self).path,
            final(self).writable == old(self).writable,
            *final(final(self).node) == *final(old(self).node),
            *final(final(self).log) == *final(old(self).log),
            if !old(self).writable {
                r == Err::<(), Error>(Error::ReadOnlyTx) && final(self).space() == old(self).space()
            } else {
                (r, final(self).space()) == discard(old(self).space(), old(self).at(), name@)
            },
    {
        if !self.writable {
            return Err(Error::ReadOnlyTx);
        }
        discard_at(self.node, self.log, &self.path, name)
    }

    /// Returns the next integer for the bucket. The integer is automatically
    /// incremented each time a new key is added to the bucket.
    pub fn next_int(&self) -> (r: u64)
        requires
            self.wf(),
        ensures
            r == self.space().tree.next_int,
    {
        self.node.next_int()
    }
}

/// What was stored is what is read, and no other key is touched.
pub proof fn law_put_then_get(s: Space, path: Seq<Seq<u8>>, key: Seq<u8>, value: Seq<u8>, other: Seq<
    u8,
>)
    requires
        put(s, path, key, value).0 is Ok,
        other != key,
    ensures
        tree::value_of(put(s, path, key, value).1.tree, key) == Some(value),
        put(s, path, key, value).1.tree.items.contains_key(other)
            == s.tree.items.contains_key(other),
        s.tree.items.contains_key(other) ==> put(s, path, key, value).1.tree.items[other]
            == s.tree.items[other],
{
}

/// The counter moves on just when a new key is added, by a value or by a
/// bucket, and removing a key leaves it.
pub proof fn law_next_int_counts_new_keys(
    s: Space,
    path: Seq<Seq<u8>>,
    key: Seq<u8>,
    value: Seq<u8>,
)
    requires
        s.tree.next_int < u64::MAX,
    ensures
        put(s, path, key, value).0 is Ok ==> put(s, path, key, value).1.tree.next_int
            == s.tree.next_int + if s.tree.items.contains_key(key) {
            0int
        } else {
            1
        },
        create(s, path, key).0 is Ok ==> create(s, path, key).1.tree.next_int == s.tree.next_int
            + 1,
        delete(s, path, key).1.tree.next_int == s.tree.next_int,
        discard(s, path, key).1.tree.next_int == s.tree.next_int,
{
}

/// A key holds a value or a bucket, and the operations for the other kind
/// refuse it and change nothing.
pub proof fn law_kinds_do_not_mix(
    s: Space,
    path: Seq<Seq<u8>>,
    key: Seq<u8>,
    value: Seq<u8>,
)
    requires
        s.tree.items.contains_key(key),
    ensures
        s.tree.items[key] is Bucket ==> put(s, path, key, value) == (
            Err::<Option<Seq<u8>>, Error>(Error::IncompatibleValue),
            s,
        ) && delete(s, path, key) == (Err::<Seq<u8>, Error>(Error::IncompatibleValue), s)
            && tree::value_of(s.tree, key) is None,
        s.tree.items[key] is Value ==> create(s, path, key) == (
            Err::<(), Error>(Error::IncompatibleValue),
            s,
        ) && ensure(s, path, key) == (Err::<(), Error>(Error::IncompatibleValue), s) && discard(
            s,
            path,
            key,
        ) == (Err::<(), Error>(Error::IncompatibleValue), s),
{
}

} // verus!
