//! Changes to a bucket that depend on what is there.

use crate::api::bucket::{self, delete_at, put_at, Bucket, Space};
use crate::api::tree::{self, Leaf};
use crate::bytes::{owned, same};
use crate::error::Error;
use vstd::prelude::*;

verus! {

/// The owned result of an atomic bucket mutation.
///
/// `observed` is the value present when the operation was evaluated. `current`
/// is the value after evaluation.
#[derive(Clone, Debug, PartialEq, Eq)]
pub struct AtomicResult {
    pub applied: bool,
    pub observed: Option<Vec<u8>>,
    pub current: Option<Vec<u8>>,
}

/// The result of an atomic mutation, by what it says.
pub struct AtomicView {
    pub applied: bool,
    pub observed: Option<Seq<u8>>,
    pub current: Option<Seq<u8>>,
}

impl View for AtomicResult {
    type V = AtomicView;

    open spec fn view(&self) -> AtomicView {
        AtomicView {
            applied: self.applied,
            observed: tree::seen(self.observed),
            current: tree::seen(self.current),
        }
    }
}

/// A mutation that was not applied.
pub open spec fn conflict(observed: Option<Seq<u8>>) -> AtomicView {
    AtomicView { applied: false, observed, current: observed }
}

/// Storing a value where a key has the expected value, or none.
pub open spec fn exchange(
    s: Space,
    path: Seq<Seq<u8>>,
    key: Seq<u8>,
    expected: Option<Seq<u8>>,
    value: Seq<u8>,
) -> (Result<AtomicView, Error>, Space) {
    let observed = tree::value_of(s.tree, key);
    if s.tree.items.contains_key(key) && s.tree.items[key] is Bucket {
        (Err(Error::IncompatibleValue), s)
    } else if observed != expected {
        (Ok(conflict(observed)), s)
    } else {
        (
            Ok(AtomicView { applied: true, observed, current: Some(value) }),
            bucket::put(s, path, key, value).1,
        )
    }
}

/// Removing a value where it is the expected one.
pub open spec fn removal(s: Space, path: Seq<Seq<u8>>, key: Seq<u8>, expected: Seq<u8>) -> (
    Result<AtomicView, Error>,
    Space,
) {
    let observed = tree::value_of(s.tree, key);
    if s.tree.items.contains_key(key) && s.tree.items[key] is Bucket {
        (Err(Error::IncompatibleValue), s)
    } else if observed != Some(expected) {
        (Ok(conflict(observed)), s)
    } else {
        (
            Ok(AtomicView { applied: true, observed, current: None }),
            bucket::delete(s, path, key).1,
        )
    }
}

/// Storing a value where there is none.
pub open spec fn insertion(s: Space, path: Seq<Seq<u8>>, key: Seq<u8>, value: Seq<u8>) -> (
    Result<AtomicView, Error>,
    Space,
) {
    exchange(s, path, key, None, value)
}

/// Whether a result is the one wanted.
pub open spec fn agrees(r: Result<AtomicResult, Error>, want: Result<AtomicView, Error>) -> bool {
    match (r, want) {
        (Ok(a), Ok(b)) => a@ == b,
        (Err(e), Err(f)) => e == f,
        _ => false,
    }
}

/// A copy of an optional value.
pub fn owned_option(value: &Option<Vec<u8>>) -> (r: Option<Vec<u8>>)
    ensures
        tree::seen(r) == tree::seen(*value),
{
    match value {
        Some(v) => Some(owned(v)),
        None => None,
    }
}

impl<'a> Bucket<'a> {
    /// The value that a key has now.
    fn observe(&self, key: &[u8]) -> (r: Result<Option<Vec<u8>>, Error>)
        requires
            self.wf(),
        ensures
            ({
                let t = self.space().tree;
                let taken = t.items.contains_key(key@) && t.items[key@] is Bucket;
                match r {
                    Ok(value) => !taken && tree::seen(value) == tree::value_of(t, key@),
                    Err(e) => taken && e == Error::IncompatibleValue,
                }
            }),
    {
        match self.node.get(key) {
            Some(leaf) => {
                proof {
                    leaf.lemma_item();
                }
                match leaf {
                    Leaf::Kv(value) => Ok(Some(owned(value))),
                    Leaf::Bucket(_) => Err(Error::IncompatibleValue),
                }
            },
            None => Ok(None),
        }
    }

    /// Inserts `value` only when `key` is missing.
    ///
    /// A missing key is inserted. An existing byte value is reported as a
    /// conflict, and an existing nested bucket is an error.
    pub fn put_if_absent(&mut self, key: &[u8], value: Vec<u8>) -> (r: Result<AtomicResult, Error>)
        requires
            old(self).wf(),
        ensures
            final(self).wf(),
            final(self).path == old(self).path,
            final(self).writable == old(self).writable,
            *final(final(self).node) == *final(old(self).node),
            *final(final(self).log) == *final(old(self).log),
            if !old(self).writable {
                r == Err::<AtomicResult, Error>(Error::ReadOnlyTx) && final(self).space() == old(
                    self,
                ).space()
            } else {
                let (want, after) = insertion(old(self).space(), old(self).at(), key@, value@);
                agrees(r, want) && final(self).space() == after
            },
    {
        self.compare_exchange(key, None, value)
    }

    /// Replaces a value only when its current bytes equal `expected`.
    ///
    /// `expected == None` matches only a missing key, allowing an atomic insert.
    pub fn compare_exchange(&mut self, key: &[u8], expected: Option<&[u8]>, value: Vec<u8>) -> (r:
        Result<AtomicResult, Error>)
        requires
            old(self).wf(),
        ensures
            final(self).wf(),
            final(self).path == old(self).path,
            final(self).writable == old(self).writable,
            *final(final(self).node) == *final(old(self).node),
            *final(final(self).log) == *final(old(self).log),
            if !old(self).writable {
                r == Err::<AtomicResult, Error>(Error::ReadOnlyTx) && final(self).space() == old(
                    self,
                ).space()
            } else {
                let wanted = match expected {
                    Some(e) => Some(e@),
                    None => None,
                };
                let (want, after) = exchange(
                    old(self).space(),
                    old(self).at(),
                    key@,
                    wanted,
                    value@,
                );
                agrees(r, want) && final(self).space() == after
            },
    {
        if !self.writable {
            return Err(Error::ReadOnlyTx);
        }
        let observed: Option<Vec<u8>> = match self.observe(key) {
            Ok(observed) => observed,
            Err(e) => return Err(e),
        };
        let met: bool = match (&observed, expected) {
            (Some(value), Some(expected)) => same(value, expected),
            (None, None) => true,
            _ => false,
        };
        if !met {
            let current: Option<Vec<u8>> = owned_option(&observed);
            return Ok(AtomicResult { applied: false, observed, current });
        }
        let current: Vec<u8> = owned(&value);
        match put_at(self.node, self.log, &self.path, key, value) {
            Ok(_) => {},
            Err(e) => return Err(e),
        }
        Ok(AtomicResult { applied: true, observed, current: Some(current) })
    }

    /// Deletes `key` only when its current bytes equal `expected`.
    ///
    /// A missing key is a conflict rather than an error.
    pub fn delete_if_value(&mut self, key: &[u8], expected: &[u8]) -> (r: Result<
        AtomicResult,
        Error,
    >)
        requires
            old(self).wf(),
        ensures
            final(self).wf(),
            final(self).path == old(self).path,
            final(self).writable == old(self).writable,
            *final(final(self).node) == *final(old(self).node),
            *final(final(self).log) == *final(old(self).log),
            if !old(self).writable {
                r == Err::<AtomicResult, Error>(Error::ReadOnlyTx) && final(self).space() == old(
                    self,
                ).space()
            } else {
                let (want, after) = removal(old(self).space(), old(self).at(), key@, expected@);
                agrees(r, want) && final(self).space() == after
            },
    {
        if !self.writable {
            return Err(Error::ReadOnlyTx);
        }
        let observed: Option<Vec<u8>> = match self.observe(key) {
            Ok(observed) => observed,
            Err(e) => return Err(e),
        };
        let met: bool = match &observed {
            Some(value) => same(value, expected),
            None => false,
        };
        if !met {
            let current: Option<Vec<u8>> = owned_option(&observed);
            return Ok(AtomicResult { applied: false, observed, current });
        }
        match delete_at(self.node, self.log, &self.path, key) {
            Ok(_) => {},
            Err(e) => return Err(e),
        }
        Ok(AtomicResult { applied: true, observed, current: None })
    }
}

/// A result tells what is there afterwards; and where it was not applied,
/// nothing has changed.
pub proof fn law_atomic_results_are_true(
    s: Space,
    path: Seq<Seq<u8>>,
    key: Seq<u8>,
    expected: Option<Seq<u8>>,
    value: Seq<u8>,
)
    ensures
        ({
            let (r, after) = exchange(s, path, key, expected, value);
            r matches Ok(result) ==> result.observed == tree::value_of(s.tree, key)
                && result.current == tree::value_of(after.tree, key) && (result.applied <==>
            tree::value_of(s.tree, key) == expected) && (!result.applied ==> after == s)
        }),
        expected matches Some(e) ==> ({
            let (r, after) = removal(s, path, key, e);
            r matches Ok(result) ==> result.observed == tree::value_of(s.tree, key)
                && result.current == tree::value_of(after.tree, key) && (result.applied <==>
            tree::value_of(s.tree, key) == expected) && (!result.applied ==> after == s)
        }),
{
}

} // verus!
