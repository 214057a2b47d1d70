//! Transactions.

use crate::api::bucket::{self, Bucket, Space};
use crate::api::changes::{self, ChangeSet, ChangeSetView, ChangeTracker, TrackerView};
use crate::api::journal::{self, persist};
use crate::api::merge::{self, merge_transactions, MergeOptions, MergeReport};
use crate::api::sweep::{self, sweep_root};
use crate::api::tree::{self, Leaf, Node, Tree};
use crate::bytes::owned;
use crate::error::Error;
use vstd::prelude::*;

verus! {

/// A transaction on a snapshot of a database.
pub struct Tx {
    pub root: Node,
    pub log: ChangeTracker,
    pub id: u64,
    pub writable: bool,
}

/// What has been noted when a transaction begins.
pub open spec fn no_changes(writable: bool) -> TrackerView {
    TrackerView { enabled: writable, bytes: 0, changes: Seq::empty(), truncated: false }
}

/// The names of a root's buckets.
pub open spec fn root_names(l: Seq<crate::data::DataView>) -> Seq<Seq<u8>>
    decreases l.len(),
{
    if l.len() == 0 {
        Seq::empty()
    } else {
        let front = root_names(l.drop_last());
        if l.last() is Bucket {
            front.push(l.last().key())
        } else {
            front
        }
    }
}

impl Tx {
    /// Whether the snapshot and the notes are in order.
    pub open spec fn wf(&self) -> bool {
        self.root.wf() && self.log.wf()
    }

    /// What the root holds, with the changes noted so far.
    pub open spec fn space(&self) -> Space {
        bucket::space(self.root, self.log)
    }

    /// Begins a transaction on a snapshot. Only one that can write notes what
    /// it changes.
    pub fn new(root: Node, id: u64, writable: bool) -> (r: Self)
        requires
            root.wf(),
        ensures
            r.wf(),
            r.space() == (Space { tree: root@, log: no_changes(writable) }),
            r.id == id,
            r.writable == writable,
    {
        Tx { root, log: ChangeTracker::new(writable), id, writable }
    }

    /// The root as a bucket.
    fn top(&mut self) -> (r: Bucket<'_>)
        requires
            old(self).wf(),
        ensures
            r.wf(),
            r.space() == old(self).space(),
            r.at() == Seq::<Seq<u8>>::empty(),
            r.writable == old(self).writable,
            final(self).root == *final(r.node),
            final(self).log == *final(r.log),
            final(self).id == old(self).id,
            final(self).writable == old(self).writable,
    {
        let path: Vec<Vec<u8>> = Vec::new();
        assert(changes::path_view(path@) =~= Seq::<Seq<u8>>::empty());
        Bucket { node: &mut self.root, log: &mut self.log, path, writable: self.writable }
    }

    /// Gets an already created root bucket.
    pub fn get_bucket(&mut self, name: &[u8]) -> (r: Result<Bucket<'_>, Error>)
        requires
            old(self).wf(),
        ensures
            final(self).id == old(self).id,
            final(self).writable == old(self).writable,
            match r {
                Ok(b) => {
                    &&& tree::child_of(old(self).root@, name@) == Ok::<Tree, Error>(b.space().tree)
                    &&& b.wf()
                    &&& b.space().log == old(self).log@
                    &&& b.at() == seq![name@]
                    &&& b.writable == old(self).writable
                    &&& final(self).log == *final(b.log)
                    &&& final(b.node).wf() ==> final(self).root.wf() && final(self).root@
                        == tree::with_child(old(self).root@, name@, final(b.node)@)
                },
                Err(e) => tree::child_of(old(self).root@, name@) == Err::<Tree, Error>(e)
                    && final(self).root == old(self).root && final(self).log == old(self).log,
            },
    {
        let path: Vec<Vec<u8>> = Vec::new();
        assert(changes::path_view(path@) =~= Seq::<Seq<u8>>::empty());
        let path: Vec<Vec<u8>> = bucket::path_below(&path, name);
        assert(changes::path_view(path@) =~= seq![name@]);
        match self.root.child_mut(name) {
            Ok(node) => Ok(Bucket { node, log: &mut self.log, path, writable: self.writable }),
            Err(e) => Err(e),
        }
    }

    /// Creates a root bucket.
    pub fn create_bucket(&mut self, name: &[u8]) -> (r: Result<Bucket<'_>, Error>)
        requires
            old(self).wf(),
        ensures
            final(self).id == old(self).id,
            final(self).writable == old(self).writable,
            ({
                let (want, after) = bucket::create(old(self).space(), Seq::empty(), name@);
                match r {
                    Ok(b) => {
                        &&& old(self).writable
                        &&& want is Ok
                        &&& b.space() == (Space { tree: tree::empty_tree(), log: after.log })
                        &&& b.wf()
                        &&& b.at() == seq![name@]
                        &&& b.writable
                        &&& final(self).log == *final(b.log)
                        &&& final(b.node).wf() ==> final(self).root.wf() && final(self).root@
                            == tree::with_child(after.tree, name@, final(b.node)@)
                    },
                    Err(e) => final(self).root == old(self).root && final(self).log == old(self).log
                        && if !old(self).writable {
                        e == Error::ReadOnlyTx
                    } else {
                        want == Err::<(), Error>(e)
                    },
                }
            }),
    {
        if !self.writable {
            return Err(Error::ReadOnlyTx);
        }
        match self.root.get(name) {
            Some(leaf) => {
                proof {
                    leaf.lemma_item();
                }
                return match leaf {
                    Leaf::Kv(_) => Err(Error::IncompatibleValue),
                    Leaf::Bucket(_) => Err(Error::BucketExists),
                };
            },
            None => {},
        }
        let path: Vec<Vec<u8>> = Vec::new();
        assert(changes::path_view(path@) =~= Seq::<Seq<u8>>::empty());
        let _made: Result<(), Error> = bucket::create_at(&mut self.root, &mut self.log, &path, name);
        self.get_bucket(name)
    }

    /// Gets a root bucket, which is created if it doesn't exist.
    pub fn get_or_create_bucket(&mut self, name: &[u8]) -> (r: Result<Bucket<'_>, Error>)
        requires
            old(self).wf(),
        ensures
            final(self).id == old(self).id,
            final(self).writable == old(self).writable,
            ({
                let (want, after) = bucket::ensure(old(self).space(), Seq::empty(), name@);
                match r {
                    Ok(b) => {
                        &&& old(self).writable
                        &&& want is Ok
                        &&& tree::child_of(after.tree, name@) == Ok::<Tree, Error>(b.space().tree)
                        &&& b.space().log == after.log
                        &&& b.wf()
                        &&& b.at() == seq![name@]
                        &&& b.writable
                        &&& final(self).log == *final(b.log)
                        &&& final(b.node).wf() ==> final(self).root.wf() && final(self).root@
                            == tree::with_child(after.tree, name@, final(b.node)@)
                    },
                    Err(e) => final(self).root == old(self).root && final(self).log == old(self).log
                        && if !old(self).writable {
                        e == Error::ReadOnlyTx
                    } else {
                        want == Err::<(), Error>(e)
                    },
                }
            }),
    {
        if !self.writable {
            return Err(Error::ReadOnlyTx);
        }
        let missing: bool = match self.root.get(name) {
            Some(leaf) => {
                proof {
                    leaf.lemma_item();
                }
                match leaf {
                    Leaf::Kv(_) => return Err(Error::IncompatibleValue),
                    Leaf::Bucket(_) => false,
                }
            },
            None => true,
        };
        if missing {
            let path: Vec<Vec<u8>> = Vec::new();
            assert(changes::path_view(path@) =~= Seq::<Seq<u8>>::empty());
            let _made: Result<(), Error> = bucket::create_at(
                &mut self.root,
                &mut self.log,
                &path,
                name,
            );
        }
        self.get_bucket(name)
    }

    /// Deletes a root bucket, with all that is in it.
    pub fn delete_bucket(&mut self, name: &[u8]) -> (r: Result<(), Error>)
        requires
            old(self).wf(),
        ensures
            final(self).wf(),
            final(self).id == old(self).id,
            final(self).writable == old(self).writable,
            if !old(self).writable {
                r == Err::<(), Error>(Error::ReadOnlyTx) && final(self).space() == old(self).space()
            } else {
                (r, final(self).space()) == bucket::discard(old(self).space(), Seq::empty(), name@)
            },
    {
        self.top().delete_bucket(name)
    }

    /// The names of the root buckets, in order.
    pub fn buckets(&self) -> (r: Vec<Vec<u8>>)
        requires
            self.wf(),
        ensures
            changes::path_view(r@) == root_names(crate::api::cursor::data_in(self.root@)),
    {
        let ghost l = crate::api::cursor::data_in(self.root@);
        proof {
            crate::api::map::lemma_data_in_order(self.root);
        }
        let mut out: Vec<Vec<u8>> = Vec::new();
        let mut i: usize = 0;
        assert(changes::path_view(out@) =~= root_names(l.take(0)));
        while i < self.root.len()
            invariant
                self.wf(),
                l == crate::api::cursor::data_in(self.root@),
                l.len() == self.root.leaves().len(),
                i <= l.len(),
                changes::path_view(out@) == root_names(l.take(i as int)),
            decreases l.len() - i,
        {
            let ghost was = changes::path_view(out@);
            proof {
                self.root.lemma_leaves();
                assert(l.take(i + 1).drop_last() =~= l.take(i as int));
                assert(l.take(i + 1).last() == l[i as int]);
                assert(tree::listing(self.root@)[i as int] == (
                    self.root.leaves()[i as int].0,
                    self.root.leaves()[i as int].1.item(),
                ));
            }
            let key: &Vec<u8> = self.root.key_at(i);
            let leaf: &Leaf = self.root.leaf_at(i);
            proof {
                leaf.lemma_item();
            }
            match leaf {
                Leaf::Bucket(_) => {
                    out.push(owned(key));
                    assert(changes::path_view(out@) =~= was.push(key@));
                },
                Leaf::Kv(_) => {},
            }
            i = i + 1;
        }
        assert(l.take(i as int) =~= l);
        out
    }

    /// Removes at most `limit` expired records across every nested bucket.
    pub fn purge_expired(&mut self, now: u64, limit: usize) -> (r: Result<usize, Error>)
        requires
            old(self).wf(),
        ensures
            final(self).wf(),
            final(self).id == old(self).id,
            final(self).writable == old(self).writable,
            if !old(self).writable {
                r == Err::<usize, Error>(Error::ReadOnlyTx) && final(self).space() == old(
                    self,
                ).space()
            } else {
                let (want, after) = sweep::swept_within(
                    old(self).root@,
                    old(self).space(),
                    Seq::empty(),
                    sweep::bucket_names(crate::api::cursor::data_in(old(self).root@)),
                    now,
                    limit as nat,
                    0,
                );
                &&& final(self).space() == after
                &&& match (r, want) {
                    (Ok(n), Ok(m)) => n == m && n <= limit,
                    (Err(e), Err(f)) => e == f,
                    _ => false,
                }
            },
    {
        if !self.writable {
            return Err(Error::ReadOnlyTx);
        }
        sweep_root(&mut self.root, &mut self.log, now, limit)
    }

    /// Recursively merges every root bucket of `source` into this transaction.
    pub fn merge_from(&mut self, source: &Node, options: MergeOptions) -> (r: Result<
        MergeReport,
        Error,
    >)
        requires
            old(self).wf(),
            source.wf(),
        ensures
            final(self).wf(),
            final(self).id == old(self).id,
            final(self).writable == old(self).writable,
            if !old(self).writable {
                r == Err::<MergeReport, Error>(Error::ReadOnlyTx) && final(self).space() == old(
                    self,
                ).space()
            } else {
                let (want, after) = merge::merged_roots(
                    source@,
                    merge::keys_of(source@),
                    merge::Merging { space: old(self).space(), report: merge::no_report() },
                    options.spec_policy(),
                );
                &&& final(self).space() == after.space
                &&& match (r, want) {
                    (Ok(report), Ok(_)) => report == after.report,
                    (Err(e), Err(stop)) => merge::tells(e, stop),
                    _ => false,
                }
            },
    {
        if !self.writable {
            return Err(Error::ReadOnlyTx);
        }
        merge_transactions(&mut self.root, &mut self.log, source, options)
    }

    /// Ends the transaction: the root that is to be made durable, with the
    /// journal brought up to date, and the change set that watchers are told
    /// once it is.
    pub fn commit(self) -> (r: Result<(Node, ChangeSet), Error>)
        requires
            self.wf(),
        ensures
            ({
                let set = ChangeSetView {
                    transaction_id: self.id,
                    changes: self.log@.changes,
                    truncated: self.log@.truncated,
                };
                match r {
                    Ok((root, told)) => self.writable && root.wf() && journal::journaled(
                        self.root@,
                        set,
                    ) == Ok::<Tree, Error>(root@) && told@ == set,
                    Err(e) => if !self.writable {
                        e == Error::ReadOnlyTx
                    } else {
                        journal::journaled(self.root@, set) == Err::<Tree, Error>(e)
                    },
                }
            }),
    {
        if !self.writable {
            return Err(Error::ReadOnlyTx);
        }
        let mut root: Node = self.root;
        let mut log: ChangeTracker = self.log;
        let set: ChangeSet = log.snapshot(self.id);
        match persist(&mut root, &set) {
            Ok(_) => {},
            Err(e) => return Err(e),
        }
        Ok((root, log.finish(self.id)))
    }
}

/// A commit leaves every bucket but the journal as the transaction had it.
pub proof fn law_commit_keeps_what_was_written(root: Tree, set: ChangeSetView, name: Seq<u8>)
    requires
        journal::journaled(root, set) is Ok,
        name != crate::api::names::journal_name(),
    ensures
        ({
            let after = journal::journaled(root, set)->Ok_0;
            &&& after.items.contains_key(name) == root.items.contains_key(name)
            &&& root.items.contains_key(name) ==> after.items[name] == root.items[name]
        }),
{
}

} // verus!
