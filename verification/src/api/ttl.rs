//! Keys that expire.
//!
//! A bucket keeps two nested buckets for this: one with the deadline of each
//! key, and one that lists the keys by their deadlines.

use crate::api::bucket::{self, put_at, Bucket, Space};
use crate::api::changes::{self, ChangeOperation, ChangeTracker};
use crate::api::cursor;
use crate::api::names::{self, deadlines_bucket, ttl_bucket};
use crate::api::tree::{self, Leaf, Node, Tree};
use crate::bytes::{self, append, owned, push_u64_be, u64_be_at};
use crate::data::DataView;
use crate::error::{Error, Fault};
use vstd::prelude::*;

verus! {

/// What storing a value that expires did.
#[derive(Clone, Debug, PartialEq, Eq)]
pub struct TtlWriteResult {
    pub previous: Option<Vec<u8>>,
    pub expires_at_millis: u64,
}

/// A deadline as it is stored.
pub open spec fn deadline_bytes(deadline: u64) -> Seq<u8> {
    bytes::be_of(deadline as nat, 8)
}

/// The deadline that bytes say.
pub open spec fn deadline_of(s: Seq<u8>) -> Result<u64, Error> {
    if s.len() == 8 {
        Ok(bytes::be_nat(s) as u64)
    } else {
        Err(Error::InvalidDB(Fault::Text("TTL expiration must contain eight bytes")))
    }
}

/// The key that lists a key by its deadline.
pub open spec fn listed_key(deadline: u64, key: Seq<u8>) -> Seq<u8> {
    deadline_bytes(deadline) + key
}

/// The deadline, and the key, that a listed key tells.
pub open spec fn listed_parts(s: Seq<u8>) -> Result<(u64, Seq<u8>), Error> {
    if s.len() < 8 {
        Err(Error::InvalidDB(Fault::Text("TTL deadline key is shorter than eight bytes")))
    } else {
        Ok((bytes::be_nat(s.take(8)) as u64, s.skip(8)))
    }
}

/// A listed key tells the deadline and the key that it was made of.
pub proof fn law_listed_key_parts(deadline: u64, key: Seq<u8>)
    ensures
        listed_parts(listed_key(deadline, key)) == Ok::<(u64, Seq<u8>), Error>((deadline, key)),
        deadline_of(deadline_bytes(deadline)) == Ok::<u64, Error>(deadline),
{
    bytes::lemma_pow256_widths();
    bytes::lemma_be_round_trip(deadline as nat, 8);
    let s = listed_key(deadline, key);
    assert(s.take(8) =~= deadline_bytes(deadline));
    assert(s.skip(8) =~= key);
}

fn deadline_key(deadline: u64, key: &[u8]) -> (r: Vec<u8>)
    ensures
        r@ == listed_key(deadline, key@),
{
    let mut out: Vec<u8> = Vec::new();
    push_u64_be(&mut out, deadline);
    append(&mut out, key);
    assert(out@ =~= listed_key(deadline, key@));
    out
}

/// Reads a deadline.
pub fn decode_expiration(s: &[u8]) -> (r: Result<u64, Error>)
    ensures
        r == deadline_of(s@),
{
    if s.len() != 8 {
        return Err(Error::InvalidDB(Fault::Text("TTL expiration must contain eight bytes")));
    }
    assert(s@.subrange(0, 8) =~= s@);
    Ok(u64_be_at(s, 0))
}

/// Reads a listed key.
pub fn decode_deadline_key(s: &[u8]) -> (r: Result<(u64, &[u8]), Error>)
    ensures
        match (r, listed_parts(s@)) {
            (Ok((deadline, key)), Ok((d, k))) => deadline == d && key@ == k,
            (Err(e), Err(f)) => e == f,
            _ => false,
        },
{
    if s.len() < 8 {
        return Err(Error::InvalidDB(Fault::Text("TTL deadline key is shorter than eight bytes")));
    }
    assert(s@.subrange(0, 8) =~= s@.take(8));
    assert(s@.subrange(8, s@.len() as int) =~= s@.skip(8));
    Ok((u64_be_at(s, 0), vstd::slice::slice_subrange(s, 8, s.len())))
}

/// When a key of a bucket expires, if it does.
pub open spec fn expires(t: Tree, key: Seq<u8>) -> Result<Option<u64>, Error> {
    match tree::child_of(t, names::ttl_name()) {
        Err(e) => if e == Error::BucketMissing {
            Ok(None)
        } else {
            Err(e)
        },
        Ok(lookup) => match tree::value_of(lookup, key) {
            None => Ok(None),
            Some(value) => match deadline_of(value) {
                Ok(deadline) => Ok(Some(deadline)),
                Err(e) => Err(e),
            },
        },
    }
}

/// The value of a key, unless the key has expired.
pub open spec fn live(t: Tree, key: Seq<u8>, now: u64) -> Result<Option<Seq<u8>>, Error> {
    match expires(t, key) {
        Err(e) => Err(e),
        Ok(None) => Ok(tree::value_of(t, key)),
        Ok(Some(deadline)) => if deadline <= now {
            Ok(None)
        } else {
            Ok(tree::value_of(t, key))
        },
    }
}

/// Taking a key off the list of deadlines, if it is there.
pub open spec fn unlisted(t: Tree, deadline: u64, key: Seq<u8>) -> (Result<(), Error>, Tree) {
    match tree::child_of(t, names::deadlines_name()) {
        Err(e) => if e == Error::BucketMissing {
            (Ok(()), t)
        } else {
            (Err(e), t)
        },
        Ok(list) => match tree::delete(list, listed_key(deadline, key)) {
            Ok((_, rest)) => (Ok(()), tree::with_child(t, names::deadlines_name(), rest)),
            Err(e) => if e == Error::KeyValueMissing {
                (Ok(()), t)
            } else {
                (Err(e), t)
            },
        },
    }
}

/// Noting a deadline: under the key, and then on the list.
pub open spec fn scheduled(t: Tree, key: Seq<u8>, deadline: u64) -> (Result<(), Error>, Tree) {
    match tree::child_of(t, names::ttl_name()) {
        Err(e) => (Err(e), t),
        Ok(lookup) => match tree::put(lookup, key, deadline_bytes(deadline)) {
            Err(e) => (Err(e), t),
            Ok((_, lookup)) => {
                let t = tree::with_child(t, names::ttl_name(), lookup);
                match tree::ensured(t, names::deadlines_name()) {
                    Err(e) => (Err(e), t),
                    Ok(t) => match tree::child_of(t, names::deadlines_name()) {
                        Err(e) => (Err(e), t),
                        Ok(list) => match tree::put(
                            list,
                            listed_key(deadline, key),
                            Seq::empty(),
                        ) {
                            Err(e) => (Err(e), t),
                            Ok((_, list)) => (
                                Ok(()),
                                tree::with_child(t, names::deadlines_name(), list),
                            ),
                        },
                    },
                }
            },
        },
    }
}

/// Setting when a key expires: the deadline before is taken off the list, and
/// the new one noted.
pub open spec fn with_expiration(t: Tree, key: Seq<u8>, deadline: u64) -> (
    Result<(), Error>,
    Tree,
) {
    match tree::ensured(t, names::ttl_name()) {
        Err(e) => (Err(e), t),
        Ok(t) => match expires(t, key) {
            Err(e) => (Err(e), t),
            Ok(None) => scheduled(t, key, deadline),
            Ok(Some(before)) => match unlisted(t, before, key) {
                (Err(e), t) => (Err(e), t),
                (Ok(_), t) => scheduled(t, key, deadline),
            },
        },
    }
}

/// Having a key expire no more; whether it did.
pub open spec fn without_expiration(t: Tree, key: Seq<u8>) -> (Result<bool, Error>, Tree) {
    match tree::child_of(t, names::ttl_name()) {
        Err(e) => if e == Error::BucketMissing {
            (Ok(false), t)
        } else {
            (Err(e), t)
        },
        Ok(lookup) => match tree::delete(lookup, key) {
            Err(e) => if e == Error::KeyValueMissing {
                (Ok(false), t)
            } else {
                (Err(e), t)
            },
            Ok((value, lookup)) => {
                let t = tree::with_child(t, names::ttl_name(), lookup);
                match deadline_of(value) {
                    Err(e) => (Err(e), t),
                    Ok(deadline) => match unlisted(t, deadline, key) {
                        (Err(e), t) => (Err(e), t),
                        (Ok(_), t) => (Ok(true), t),
                    },
                }
            },
        },
    }
}

/// Storing a value that expires: the value, and then when it expires.
pub open spec fn put_expiring(
    s: Space,
    path: Seq<Seq<u8>>,
    key: Seq<u8>,
    value: Seq<u8>,
    deadline: u64,
) -> (Result<Option<Seq<u8>>, Error>, Space) {
    match bucket::put(s, path, key, value) {
        (Err(e), s) => (Err(e), s),
        (Ok(before), s) => match with_expiration(s.tree, key, deadline) {
            (Err(e), t) => (Err(e), Space { tree: t, ..s }),
            (Ok(_), t) => (Ok(before), Space { tree: t, ..s }),
        },
    }
}

/// When a key of a bucket expires, if it does.
pub fn expiration(node: &Node, key: &[u8]) -> (r: Result<Option<u64>, Error>)
    requires
        node.wf(),
    ensures
        r == expires(node@, key@),
{
    match node.child(&ttl_bucket()) {
        Err(Error::BucketMissing) => Ok(None),
        Err(e) => Err(e),
        Ok(lookup) => match lookup.get_kv(key) {
            None => Ok(None),
            Some(value) => match decode_expiration(value) {
                Ok(deadline) => Ok(Some(deadline)),
                Err(e) => Err(e),
            },
        },
    }
}

/// The value of a key of a bucket, unless the key has expired.
pub fn live_value<'n>(node: &'n Node, key: &[u8], now: u64) -> (r: Result<
    Option<&'n Vec<u8>>,
    Error,
>)
    requires
        node.wf(),
    ensures
        match (r, live(node@, key@, now)) {
            (Ok(Some(value)), Ok(want)) => want == Some(value@),
            (Ok(None), Ok(want)) => want is None,
            (Err(e), Err(f)) => e == f,
            _ => false,
        },
{
    match expiration(node, key) {
        Err(e) => Err(e),
        Ok(None) => Ok(node.get_kv(key)),
        Ok(Some(deadline)) => if deadline <= now {
            Ok(None)
        } else {
            Ok(node.get_kv(key))
        },
    }
}

fn remove_deadline(node: &mut Node, deadline: u64, key: &[u8]) -> (r: Result<(), Error>)
    requires
        old(node).wf(),
    ensures
        final(node).wf(),
        (r, final(node)@) == unlisted(old(node)@, deadline, key@),
{
    let name: Vec<u8> = deadlines_bucket();
    let ghost t = node@;
    let r: Result<(), Error> = match node.child_mut(&name) {
        Err(Error::BucketMissing) => return Ok(()),
        Err(e) => return Err(e),
        Ok(list) => match list.delete(&deadline_key(deadline, key)) {
            Ok(_) => Ok(()),
            Err(Error::KeyValueMissing) => Ok(()),
            Err(e) => Err(e),
        },
    };
    proof {
        lemma_child_same(t, names::deadlines_name());
    }
    r
}

/// A bucket in which a nested bucket is replaced by itself is the same.
proof fn lemma_child_same(t: Tree, name: Seq<u8>)
    requires
        tree::child_of(t, name) is Ok,
    ensures
        tree::with_child(t, name, tree::child_of(t, name)->Ok_0) == t,
{
    assert(tree::with_child(t, name, tree::child_of(t, name)->Ok_0).items =~= t.items);
}

fn schedule(node: &mut Node, key: &[u8], deadline: u64) -> (r: Result<(), Error>)
    requires
        old(node).wf(),
    ensures
        final(node).wf(),
        (r, final(node)@) == scheduled(old(node)@, key@, deadline),
{
    let ghost start = node@;
    let mut stored: Vec<u8> = Vec::new();
    push_u64_be(&mut stored, deadline);
    assert(stored@ =~= deadline_bytes(deadline));
    let noted: Result<Option<Vec<u8>>, Error> = match node.child_mut(&ttl_bucket()) {
        Err(e) => return Err(e),
        Ok(lookup) => lookup.put(key, stored),
    };
    match noted {
        Err(e) => {
            proof {
                lemma_child_same(start, names::ttl_name());
            }
            return Err(e);
        },
        Ok(_) => {},
    }
    let name: Vec<u8> = deadlines_bucket();
    match node.ensure_bucket(&name) {
        Err(e) => return Err(e),
        Ok(_) => {},
    }
    let ghost t = node@;
    let empty: Vec<u8> = Vec::new();
    assert(empty@ =~= Seq::<u8>::empty());
    let listed: Result<Option<Vec<u8>>, Error> = match node.child_mut(&name) {
        Err(e) => return Err(e),
        Ok(list) => list.put(&deadline_key(deadline, key), empty),
    };
    match listed {
        Err(e) => {
            proof {
                lemma_child_same(t, names::deadlines_name());
            }
            Err(e)
        },
        Ok(_) => Ok(()),
    }
}

/// Sets when a key of a bucket expires.
pub fn set_expiration(node: &mut Node, key: &[u8], deadline: u64) -> (r: Result<(), Error>)
    requires
        old(node).wf(),
    ensures
        final(node).wf(),
        (r, final(node)@) == with_expiration(old(node)@, key@, deadline),
{
    match node.ensure_bucket(&ttl_bucket()) {
        Err(e) => return Err(e),
        Ok(_) => {},
    }
    match expiration(node, key) {
        Err(e) => return Err(e),
        Ok(None) => {},
        Ok(Some(before)) => match remove_deadline(node, before, key) {
            Err(e) => return Err(e),
            Ok(_) => {},
        },
    }
    schedule(node, key, deadline)
}

/// Has a key of a bucket expire no more; says whether it did.
pub fn clear_expiration(node: &mut Node, key: &[u8]) -> (r: Result<bool, Error>)
    requires
        old(node).wf(),
    ensures
        final(node).wf(),
        (r, final(node)@) == without_expiration(old(node)@, key@),
{
    let ghost t = node@;
    let taken: Result<Vec<u8>, Error> = match node.child_mut(&ttl_bucket()) {
        Err(Error::BucketMissing) => return Ok(false),
        Err(e) => return Err(e),
        Ok(lookup) => lookup.delete(key),
    };
    let value: Vec<u8> = match taken {
        Ok(value) => value,
        Err(Error::KeyValueMissing) => {
            proof {
                lemma_child_same(t, names::ttl_name());
            }
            return Ok(false);
        },
        Err(e) => {
            proof {
                lemma_child_same(t, names::ttl_name());
            }
            return Err(e);
        },
    };
    let deadline: u64 = match decode_expiration(&value) {
        Ok(deadline) => deadline,
        Err(e) => return Err(e),
    };
    match remove_deadline(node, deadline, key) {
        Ok(_) => Ok(true),
        Err(e) => Err(e),
    }
}

/// Listing keys by their deadlines, from the deadlines under the keys.
pub open spec fn listed_all(list: Tree, l: Seq<DataView>) -> (Result<(), Error>, Tree)
    decreases l.len(),
{
    if l.len() == 0 {
        (Ok(()), list)
    } else {
        match listed_all(list, l.drop_last()) {
            (Err(e), list) => (Err(e), list),
            (Ok(_), list) => match l.last() {
                DataView::Bucket(_) => (Ok(()), list),
                DataView::KeyValue(key, value) => match deadline_of(value) {
                    Err(e) => (Err(e), list),
                    Ok(deadline) => match tree::put(
                        list,
                        listed_key(deadline, key),
                        Seq::empty(),
                    ) {
                        Err(e) => (Err(e), list),
                        Ok((_, list)) => (Ok(()), list),
                    },
                },
            },
        }
    }
}

proof fn lemma_listed_all_stops(list: Tree, l: Seq<DataView>, n: int)
    requires
        0 <= n <= l.len(),
        listed_all(list, l.take(n)).0 is Err,
    ensures
        listed_all(list, l) == listed_all(list, l.take(n)),
    decreases l.len(),
{
    if n < l.len() {
        assert(l.drop_last().take(n) =~= l.take(n));
        lemma_listed_all_stops(list, l.drop_last(), n);
    } else {
        assert(l.take(n) =~= l);
    }
}

/// A bucket with its list of deadlines, which is made where there is none.
pub open spec fn with_list(t: Tree) -> (Result<(), Error>, Tree) {
    match tree::create_bucket(t, names::deadlines_name()) {
        Err(e) => if e == Error::BucketExists {
            (Ok(()), t)
        } else {
            (Err(e), t)
        },
        Ok(made) => match tree::child_of(t, names::ttl_name()) {
            Err(e) => (Err(e), made),
            Ok(lookup) => {
                let (r, list) = listed_all(tree::empty_tree(), cursor::data_in(lookup));
                (r, tree::with_child(made, names::deadlines_name(), list))
            },
        },
    }
}

/// Lists keys by their deadlines, where there is no list yet.
fn deadline_index(node: &mut Node) -> (r: Result<(), Error>)
    requires
        old(node).wf(),
        tree::child_of(old(node)@, names::ttl_name()) is Ok,
    ensures
        final(node).wf(),
        (r, final(node)@) == with_list(old(node)@),
{
    let ghost t = node@;
    proof {
        names::law_names_differ();
    }
    let name: Vec<u8> = deadlines_bucket();
    match node.create_bucket(&name) {
        Err(Error::BucketExists) => return Ok(()),
        Err(e) => return Err(e),
        Ok(_) => {},
    }
    let ghost made = node@;
    let ghost l = cursor::data_in(tree::child_of(t, names::ttl_name())->Ok_0);
    let mut list: Node = Node::new();
    let ghost empty = list@;
    let mut failed: Option<Error> = None;
    match node.child(&ttl_bucket()) {
        Err(e) => return Err(e),
        Ok(lookup) => {
            proof {
                crate::api::map::lemma_data_in_order(*lookup);
                assert(l.take(0) =~= Seq::<DataView>::empty());
            }
            let mut i: usize = 0;
            while i < lookup.len() && failed.is_none()
                invariant
                    lookup.wf(),
                    l == cursor::data_in(lookup@),
                    l.len() == lookup.leaves().len(),
                    i <= l.len(),
                    list.wf(),
                    empty == tree::empty_tree(),
                    match failed {
                        None => (Ok::<(), Error>(()), list@) == listed_all(empty, l.take(i as int)),
                        Some(e) => (Err::<(), Error>(e), list@) == listed_all(empty, l),
                    },
                decreases l.len() - i,
            {
                proof {
                    lookup.lemma_leaves();
                    assert(l.take(i + 1).drop_last() =~= l.take(i as int));
                    assert(l.take(i + 1).last() == l[i as int]);
                    assert(tree::listing(lookup@)[i as int] == (
                        lookup.leaves()[i as int].0,
                        lookup.leaves()[i as int].1.item(),
                    ));
                }
                let leaf: &Leaf = lookup.leaf_at(i);
                proof {
                    leaf.lemma_item();
                }
                match leaf {
                    Leaf::Bucket(_) => {},
                    Leaf::Kv(value) => match decode_expiration(value) {
                        Err(e) => {
                            failed = Some(e);
                        },
                        Ok(deadline) => {
                            let none: Vec<u8> = Vec::new();
                            assert(none@ =~= Seq::<u8>::empty());
                            match list.put(&deadline_key(deadline, lookup.key_at(i)), none) {
                                Ok(_) => {},
                                Err(e) => {
                                    failed = Some(e);
                                },
                            }
                        },
                    },
                }
                proof {
                    if failed is Some {
                        lemma_listed_all_stops(empty, l, i + 1);
                    }
                }
                i = i + 1;
            }
            proof {
                if failed is None {
                    assert(l.take(i as int) =~= l);
                }
            }
        },
    }
    let ghost filled = list@;
    let r: Result<(), Error> = match failed {
        Some(e) => Err(e),
        None => Ok(()),
    };
    assert((r, filled) == listed_all(tree::empty_tree(), l));
    match node.child_mut(&name) {
        Err(e) => return Err(e),
        Ok(place) => {
            std::mem::swap(place, &mut list);
        },
    }
    assert(node@ == tree::with_child(made, names::deadlines_name(), filled));
    r
}

/// The keys on a list of deadlines that are due: the earliest, up to `limit`.
pub open spec fn due(l: Seq<DataView>, now: u64, limit: nat) -> Result<Seq<Seq<u8>>, Error>
    decreases l.len(),
{
    if limit == 0 || l.len() == 0 {
        Ok(Seq::empty())
    } else if l[0] is Bucket {
        due(l.drop_first(), now, limit)
    } else {
        match listed_parts(l[0].key()) {
            Err(e) => Err(e),
            Ok((deadline, _)) => if deadline > now {
                Ok(Seq::empty())
            } else {
                match due(l.drop_first(), now, (limit - 1) as nat) {
                    Err(e) => Err(e),
                    Ok(rest) => Ok(seq![l[0].key()] + rest),
                }
            },
        }
    }
}

/// A result behind keys that are known already.
pub open spec fn behind(front: Seq<Seq<u8>>, rest: Result<Seq<Seq<u8>>, Error>) -> Result<
    Seq<Seq<u8>>,
    Error,
> {
    match rest {
        Err(e) => Err(e),
        Ok(rest) => Ok(front + rest),
    }
}

/// The keys on a list of deadlines that are due.
fn find_due(list: &Node, now: u64, limit: usize) -> (r: Result<Vec<Vec<u8>>, Error>)
    requires
        list.wf(),
        limit > 0,
    ensures
        match (r, due(cursor::data_in(list@), now, limit as nat)) {
            (Ok(keys), Ok(want)) => changes::path_view(keys@) == want && want.len() <= limit,
            (Err(e), Err(f)) => e == f,
            _ => false,
        },
{
    let ghost l = cursor::data_in(list@);
    let ghost want = due(l, now, limit as nat);
    proof {
        crate::api::map::lemma_data_in_order(*list);
    }
    let mut out: Vec<Vec<u8>> = Vec::new();
    let mut i: usize = 0;
    proof {
        assert(l.skip(0) =~= l);
        assert(changes::path_view(out@) =~= Seq::<Seq<u8>>::empty());
        assert(behind(Seq::empty(), want) == want) by {
            if want is Ok {
                assert(Seq::<Seq<u8>>::empty() + want->Ok_0 =~= want->Ok_0);
            }
        }
    }
    while i < list.len() && out.len() < limit
        invariant
            list.wf(),
            l == cursor::data_in(list@),
            l.len() == list.leaves().len(),
            i <= l.len(),
            out@.len() <= limit,
            want == due(l, now, limit as nat),
            want == behind(
                changes::path_view(out@),
                due(l.skip(i as int), now, (limit - out@.len()) as nat),
            ),
        decreases l.len() - i,
    {
        let ghost was = changes::path_view(out@);
        let ghost rest = l.skip(i as int);
        proof {
            list.lemma_leaves();
            assert(rest[0] == l[i as int]);
            assert(rest.drop_first() =~= l.skip(i + 1));
            assert(tree::listing(list@)[i as int] == (
                list.leaves()[i as int].0,
                list.leaves()[i as int].1.item(),
            ));
        }
        let leaf: &Leaf = list.leaf_at(i);
        proof {
            leaf.lemma_item();
        }
        match leaf {
            Leaf::Bucket(_) => {},
            Leaf::Kv(_) => {
                let key: &Vec<u8> = list.key_at(i);
                match decode_deadline_key(key) {
                    Err(e) => return Err(e),
                    Ok((deadline, _)) => {
                        if deadline > now {
                            proof {
                                assert(was + Seq::<Seq<u8>>::empty() =~= was);
                            }
                            return Ok(out);
                        }
                    },
                }
                out.push(owned(key));
                proof {
                    assert(changes::path_view(out@) =~= was.push(key@));
                    let tail = due(l.skip(i + 1), now, (limit - out@.len()) as nat);
                    if tail is Ok {
                        assert(was + (seq![key@] + tail->Ok_0) =~= was.push(key@) + tail->Ok_0);
                    }
                }
            },
        }
        i = i + 1;
    }
    proof {
        let was = changes::path_view(out@);
        assert(was + Seq::<Seq<u8>>::empty() =~= was);
    }
    Ok(out)
}

/// Removing what is listed under one key of the list of deadlines.
pub open spec fn expired(s: Space, path: Seq<Seq<u8>>, listed: Seq<u8>) -> (
    Result<(), Error>,
    Space,
) {
    let key = listed.skip(8);
    if s.tree.items.contains_key(key) && s.tree.items[key] is Bucket {
        (Err(Error::IncompatibleValue), s)
    } else {
        let s = if s.tree.items.contains_key(key) {
            Space {
                tree: tree::without(s.tree, key),
                log: bucket::noted(s.log, path, key, ChangeOperation::Expire),
            }
        } else {
            s
        };
        match tree::child_of(s.tree, names::ttl_name()) {
            Err(e) => (Err(e), s),
            Ok(lookup) => match tree::delete(lookup, key) {
                Err(e) => (Err(e), s),
                Ok((_, lookup)) => {
                    let t = tree::with_child(s.tree, names::ttl_name(), lookup);
                    match tree::child_of(t, names::deadlines_name()) {
                        Err(e) => (Err(e), Space { tree: t, ..s }),
                        Ok(list) => match tree::delete(list, listed) {
                            Err(e) => (Err(e), Space { tree: t, ..s }),
                            Ok((_, list)) => (
                                Ok(()),
                                Space {
                                    tree: tree::with_child(t, names::deadlines_name(), list),
                                    ..s
                                },
                            ),
                        },
                    }
                },
            },
        }
    }
}

/// Removing what is listed under several keys of the list of deadlines.
pub open spec fn expired_all(s: Space, path: Seq<Seq<u8>>, listed: Seq<Seq<u8>>) -> (
    Result<(), Error>,
    Space,
)
    decreases listed.len(),
{
    if listed.len() == 0 {
        (Ok(()), s)
    } else {
        match expired_all(s, path, listed.drop_last()) {
            (Err(e), s) => (Err(e), s),
            (Ok(_), s) => expired(s, path, listed.last()),
        }
    }
}

proof fn lemma_expired_all_stops(s: Space, path: Seq<Seq<u8>>, listed: Seq<Seq<u8>>, n: int)
    requires
        0 <= n <= listed.len(),
        expired_all(s, path, listed.take(n)).0 is Err,
    ensures
        expired_all(s, path, listed) == expired_all(s, path, listed.take(n)),
    decreases listed.len(),
{
    if n < listed.len() {
        assert(listed.drop_last().take(n) =~= listed.take(n));
        lemma_expired_all_stops(s, path, listed.drop_last(), n);
    } else {
        assert(listed.take(n) =~= listed);
    }
}

/// Removing up to `limit` keys that have expired; how many there were.
pub open spec fn purged(s: Space, path: Seq<Seq<u8>>, now: u64, limit: nat) -> (
    Result<nat, Error>,
    Space,
) {
    if limit == 0 {
        (Ok(0), s)
    } else {
        match tree::child_of(s.tree, names::ttl_name()) {
            Err(e) => if e == Error::BucketMissing {
                (Ok(0), s)
            } else {
                (Err(e), s)
            },
            Ok(_) => match with_list(s.tree) {
                (Err(e), t) => (Err(e), Space { tree: t, ..s }),
                (Ok(_), t) => {
                    let s = Space { tree: t, ..s };
                    match tree::child_of(t, names::deadlines_name()) {
                        Err(e) => (Err(e), s),
                        Ok(list) => match due(cursor::data_in(list), now, limit) {
                            Err(e) => (Err(e), s),
                            Ok(keys) => match expired_all(s, path, keys) {
                                (Err(e), s) => (Err(e), s),
                                (Ok(_), s) => (Ok(keys.len()), s),
                            },
                        },
                    }
                },
            },
        }
    }
}

fn expire(node: &mut Node, log: &mut ChangeTracker, path: &Vec<Vec<u8>>, listed: &Vec<u8>) -> (r:
    Result<(), Error>)
    requires
        old(node).wf(),
        old(log).wf(),
        listed@.len() >= 8,
    ensures
        final(node).wf(),
        final(log).wf(),
        (r, bucket::space(*final(node), *final(log))) == expired(
            bucket::space(*old(node), *old(log)),
            changes::path_view(path@),
            listed@,
        ),
{
    let key: &[u8] = vstd::slice::slice_subrange(listed.as_slice(), 8, listed.len());
    assert(key@ =~= listed@.skip(8));
    let found: Option<bool> = match node.get(key) {
        Some(leaf) => {
            proof {
                leaf.lemma_item();
            }
            match leaf {
                Leaf::Kv(_) => Some(true),
                Leaf::Bucket(_) => Some(false),
            }
        },
        None => None,
    };
    match found {
        Some(true) => {
            let _value: Result<Vec<u8>, Error> = node.delete(key);
            log.record(path, key, ChangeOperation::Expire);
        },
        Some(false) => return Err(Error::IncompatibleValue),
        None => {},
    }
    let ghost t = node@;
    let forgotten: Result<Vec<u8>, Error> = match node.child_mut(&ttl_bucket()) {
        Err(e) => return Err(e),
        Ok(lookup) => lookup.delete(key),
    };
    match forgotten {
        Err(e) => {
            proof {
                lemma_child_same(t, names::ttl_name());
            }
            return Err(e);
        },
        Ok(_) => {},
    }
    let ghost t = node@;
    let unlisted: Result<Vec<u8>, Error> = match node.child_mut(&deadlines_bucket()) {
        Err(e) => return Err(e),
        Ok(list) => list.delete(listed),
    };
    match unlisted {
        Err(e) => {
            proof {
                lemma_child_same(t, names::deadlines_name());
            }
            Err(e)
        },
        Ok(_) => Ok(()),
    }
}

/// Where the due keys of a list have their deadlines.
proof fn lemma_due(l: Seq<DataView>, now: u64, limit: nat)
    requires
        due(l, now, limit) is Ok,
    ensures
        forall|j: int|
            0 <= j < due(l, now, limit)->Ok_0.len() ==> (#[trigger] due(
                l,
                now,
                limit,
            )->Ok_0[j]).len() >= 8 && bytes::be_nat(due(l, now, limit)->Ok_0[j].take(8)) as u64
                <= now,
        due(l, now, limit)->Ok_0.len() <= limit,
    decreases l.len(),
{
    if limit > 0 && l.len() > 0 {
        if l[0] is Bucket {
            lemma_due(l.drop_first(), now, limit);
        } else if listed_parts(l[0].key()) is Ok && listed_parts(l[0].key())->Ok_0.0 <= now {
            lemma_due(l.drop_first(), now, (limit - 1) as nat);
            let rest = due(l.drop_first(), now, (limit - 1) as nat)->Ok_0;
            let all = due(l, now, limit)->Ok_0;
            assert forall|j: int| 0 <= j < all.len() implies (#[trigger] all[j]).len() >= 8
                && bytes::be_nat(all[j].take(8)) as u64 <= now by {
                if j > 0 {
                    assert(all[j] == rest[j - 1]);
                }
            }
        }
    }
}

/// Removes up to `limit` keys of a bucket that have expired at `now`; says how
/// many there were.
pub fn purge_at(
    node: &mut Node,
    log: &mut ChangeTracker,
    path: &Vec<Vec<u8>>,
    now: u64,
    limit: usize,
) -> (r: Result<usize, Error>)
    requires
        old(node).wf(),
        old(log).wf(),
    ensures
        final(node).wf(),
        final(log).wf(),
        ({
            let (want, after) = purged(
                bucket::space(*old(node), *old(log)),
                changes::path_view(path@),
                now,
                limit as nat,
            );
            &&& bucket::space(*final(node), *final(log)) == after
            &&& match (r, want) {
                (Ok(n), Ok(m)) => n == m && n <= limit,
                (Err(e), Err(f)) => e == f,
                _ => false,
            }
        }),
{
    if limit == 0 {
        return Ok(0);
    }
    match node.child(&ttl_bucket()) {
        Ok(_) => {},
        Err(Error::BucketMissing) => return Ok(0),
        Err(e) => return Err(e),
    }
    match deadline_index(node) {
        Ok(_) => {},
        Err(e) => return Err(e),
    }
    let keys: Vec<Vec<u8>> = match node.child(&deadlines_bucket()) {
        Ok(list) => {
            let found: Result<Vec<Vec<u8>>, Error> = find_due(list, now, limit);
            proof {
                if found is Ok {
                    lemma_due(cursor::data_in(list@), now, limit as nat);
                }
            }
            match found {
                Ok(keys) => keys,
                Err(e) => return Err(e),
            }
        },
        Err(e) => return Err(e),
    };
    let ghost s = bucket::space(*node, *log);
    let ghost at = changes::path_view(path@);
    let ghost all = changes::path_view(keys@);
    let ghost whole = purged(
        bucket::space(*old(node), *old(log)),
        changes::path_view(path@),
        now,
        limit as nat,
    );
    let mut i: usize = 0;
    proof {
        assert(whole == match expired_all(s, at, all) {
            (Err(e), s) => (Err::<nat, Error>(e), s),
            (Ok(_), s) => (Ok(all.len()), s),
        });
        assert(all.take(0) =~= Seq::<Seq<u8>>::empty());
        assert(all.len() == keys@.len());
        assert forall|j: int| 0 <= j < keys@.len() implies (#[trigger] keys@[j])@.len() >= 8 by {
            assert(all[j].len() >= 8);
        }
    }
    while i < keys.len()
        invariant
            i <= keys@.len(),
            node.wf(),
            log.wf(),
            at == changes::path_view(path@),
            all == changes::path_view(keys@),
            forall|j: int| 0 <= j < keys@.len() ==> (#[trigger] keys@[j])@.len() >= 8,
            whole == purged(
                bucket::space(*old(node), *old(log)),
                changes::path_view(path@),
                now,
                limit as nat,
            ),
            whole == match expired_all(s, at, all) {
                (Err(e), s) => (Err::<nat, Error>(e), s),
                (Ok(_), s) => (Ok(all.len()), s),
            },
            expired_all(s, at, all.take(i as int)) == (
                Ok::<(), Error>(()),
                bucket::space(*node, *log),
            ),
        decreases keys@.len() - i,
    {
        proof {
            assert(all.take(i + 1).drop_last() =~= all.take(i as int));
            assert(all.take(i + 1).last() == keys@[i as int]@);
        }
        match expire(node, log, path, &keys[i]) {
            Ok(_) => {},
            Err(e) => {
                proof {
                    lemma_expired_all_stops(s, at, all, i + 1);
                }
                return Err(e);
            },
        }
        i = i + 1;
    }
    assert(all.take(i as int) =~= all);
    Ok(keys.len())
}

impl<'a> Bucket<'a> {
    /// Writes a value and its persistent wall-clock expiration atomically.
    pub fn put_with_ttl(&mut self, key: &[u8], value: Vec<u8>, expires_at_millis: u64) -> (r:
        Result<TtlWriteResult, Error>)
        requires
            old(self).wf(),
        ensures
            final(self).wf(),
            final(self).path == old(self).path,
            final(self).writable == old(self).writable,
            *final(final(self).node) == *final(old(self).node),
            *final(final(self).log) == *final(old(self).log),
            if !old(self).writable {
                r == Err::<TtlWriteResult, Error>(Error::ReadOnlyTx) && final(self).space() == old(
                    self,
                ).space()
            } else {
                let (want, after) = put_expiring(
                    old(self).space(),
                    old(self).at(),
                    key@,
                    value@,
                    expires_at_millis,
                );
                &&& final(self).space() == after
                &&& match (r, want) {
                    (Ok(result), Ok(before)) => tree::seen(result.previous) == before
                        && result.expires_at_millis == expires_at_millis,
                    (Err(e), Err(f)) => e == f,
                    _ => false,
                }
            },
    {
        if !self.writable {
            return Err(Error::ReadOnlyTx);
        }
        let previous: Option<Vec<u8>> = match put_at(
            self.node,
            self.log,
            &self.path,
            key,
            value,
        ) {
            Ok(previous) => previous,
            Err(e) => return Err(e),
        };
        match set_expiration(self.node, key, expires_at_millis) {
            Ok(_) => Ok(TtlWriteResult { previous, expires_at_millis }),
            Err(e) => Err(e),
        }
    }

    /// Reads a value only when it has not expired at the supplied wall clock.
    pub fn get_live_at(&self, key: &[u8], now: u64) -> (r: Result<Option<&Vec<u8>>, Error>)
        requires
            self.wf(),
        ensures
            match (r, live(self.space().tree, key@, now)) {
                (Ok(Some(value)), Ok(want)) => want == Some(value@),
                (Ok(None), Ok(want)) => want is None,
                (Err(e), Err(f)) => e == f,
                _ => false,
            },
    {
        live_value(self.node, key, now)
    }

    /// Removes a key's TTL while leaving its value intact.
    pub fn clear_ttl(&mut self, key: &[u8]) -> (r: Result<bool, Error>)
        requires
            old(self).wf(),
        ensures
            final(self).wf(),
            final(self).path == old(self).path,
            final(self).writable == old(self).writable,
            *final(final(self).node) == *final(old(self).node),
            *final(final(self).log) == *final(old(self).log),
            if !old(self).writable && tree::child_of(
                old(self).space().tree,
                names::ttl_name(),
            ) is Ok {
                r == Err::<bool, Error>(Error::ReadOnlyTx) && final(self).space() == old(
                    self,
                ).space()
            } else {
                let (want, after) = without_expiration(old(self).space().tree, key@);
                r == want && final(self).space() == (Space { tree: after, ..old(self).space() })
            },
    {
        if !self.writable {
            match self.node.child(&ttl_bucket()) {
                Ok(_) => return Err(Error::ReadOnlyTx),
                Err(_) => {},
            }
        }
        clear_expiration(self.node, key)
    }

    /// Lazily removes up to `limit` entries expired at `now`.
    pub fn purge_expired(&mut self, now: u64, limit: usize) -> (r: Result<usize, Error>)
        requires
            old(self).wf(),
        ensures
            final(self).wf(),
            final(self).path == old(self).path,
            final(self).writable == old(self).writable,
            *final(final(self).node) == *final(old(self).node),
            *final(final(self).log) == *final(old(self).log),
            if !old(self).writable {
                r == Err::<usize, Error>(Error::ReadOnlyTx) && final(self).space() == old(
                    self,
                ).space()
            } else {
                let (want, after) = purged(old(self).space(), old(self).at(), now, limit as nat);
                &&& final(self).space() == after
                &&& match (r, want) {
                    (Ok(n), Ok(m)) => n == m && n <= limit,
                    (Err(e), Err(f)) => e == f,
                    _ => false,
                }
            },
    {
        if !self.writable {
            return Err(Error::ReadOnlyTx);
        }
        purge_at(self.node, self.log, &self.path, now, limit)
    }
}

/// Having a key expire no more, once it was written.
pub open spec fn unexpiring(s: Space, key: Seq<u8>) -> (Result<(), Error>, Space) {
    match without_expiration(s.tree, key) {
        (Err(e), t) => (Err(e), Space { tree: t, ..s }),
        (Ok(_), t) => (Ok(()), Space { tree: t, ..s }),
    }
}

/// Storing a value that does not expire.
pub open spec fn put_lasting(s: Space, path: Seq<Seq<u8>>, key: Seq<u8>, value: Seq<u8>) -> (
    Result<Option<Seq<u8>>, Error>,
    Space,
) {
    match bucket::put(s, path, key, value) {
        (Err(e), s) => (Err(e), s),
        (Ok(before), s) => match unexpiring(s, key) {
            (Err(e), s) => (Err(e), s),
            (Ok(_), s) => (Ok(before), s),
        },
    }
}

/// Removing a value, with its deadline.
pub open spec fn removed(s: Space, path: Seq<Seq<u8>>, key: Seq<u8>) -> (Result<(), Error>, Space) {
    match bucket::delete(s, path, key) {
        (Err(e), s) => (Err(e), s),
        (Ok(_), s) => unexpiring(s, key),
    }
}

/// Giving a key another value, or none.
pub open spec fn updated(
    s: Space,
    path: Seq<Seq<u8>>,
    key: Seq<u8>,
    value: Option<Seq<u8>>,
) -> (Result<(), Error>, Space) {
    match value {
        Some(v) => match put_lasting(s, path, key, v) {
            (Err(e), s) => (Err(e), s),
            (Ok(_), s) => (Ok(()), s),
        },
        None => if tree::value_of(s.tree, key) is Some {
            removed(s, path, key)
        } else {
            (Ok(()), s)
        },
    }
}

/// Whether a result, and what is there after it, are those of an update that
/// gave a key another value, or none. A transaction that only reads allows
/// nothing but to leave a missing value missing.
pub open spec fn update_told<T>(
    r: Result<T, Error>,
    before: Space,
    after: Space,
    path: Seq<Seq<u8>>,
    writable: bool,
    key: Seq<u8>,
    value: Option<Seq<u8>>,
) -> bool {
    if !writable && (value is Some || tree::value_of(before.tree, key) is Some) {
        r == Err::<T, Error>(Error::ReadOnlyTx) && after == before
    } else {
        let (want, then) = updated(before, path, key, value);
        after == then && match want {
            Ok(_) => r is Ok,
            Err(e) => r == Err::<T, Error>(e),
        }
    }
}

impl<'a> Bucket<'a> {
    /// Stores a value that does not expire, and hands back the one before.
    pub fn put_lasting(&mut self, key: &[u8], value: Vec<u8>) -> (r: Result<
        Option<Vec<u8>>,
        Error,
    >)
        requires
            old(self).wf(),
            old(self).writable,
        ensures
            final(self).wf(),
            final(self).path == old(self).path,
            final(self).writable == old(self).writable,
            *final(final(self).node) == *final(old(self).node),
            *final(final(self).log) == *final(old(self).log),
            ({
                let (want, after) = put_lasting(old(self).space(), old(self).at(), key@, value@);
                &&& final(self).space() == after
                &&& match (r, want) {
                    (Ok(before), Ok(was)) => tree::seen(before) == was,
                    (Err(e), Err(f)) => e == f,
                    _ => false,
                }
            }),
    {
        let before: Option<Vec<u8>> = match self.put(key, value) {
            Ok(before) => before,
            Err(e) => return Err(e),
        };
        match self.clear_ttl(key) {
            Ok(_) => Ok(before),
            Err(e) => Err(e),
        }
    }

    /// Gives a key another value, or takes its value away; either way it
    /// expires no more.
    pub fn replace_value(&mut self, key: &[u8], value: Option<Vec<u8>>) -> (r: Result<(), Error>)
        requires
            old(self).wf(),
        ensures
            final(self).wf(),
            final(self).path == old(self).path,
            final(self).writable == old(self).writable,
            *final(final(self).node) == *final(old(self).node),
            *final(final(self).log) == *final(old(self).log),
            update_told(
                r,
                old(self).space(),
                final(self).space(),
                old(self).at(),
                old(self).writable,
                key@,
                tree::seen(value),
            ),
    {
        match value {
            Some(value) => {
                if !self.writable {
                    return Err(Error::ReadOnlyTx);
                }
                match self.put_lasting(key, value) {
                    Ok(_) => Ok(()),
                    Err(e) => Err(e),
                }
            },
            None => {
                if self.get_kv(key).is_none() {
                    return Ok(());
                }
                match self.delete(key) {
                    Ok(_) => {},
                    Err(e) => return Err(e),
                }
                match self.clear_ttl(key) {
                    Ok(_) => Ok(()),
                    Err(e) => Err(e),
                }
            },
        }
    }

    /// Computes a replacement from the current bytes in this transaction.
    /// Returning `None` deletes an existing value. The returned value is the
    /// owned value observed before the update.
    pub fn update_value<F: FnOnce(Option<&[u8]>) -> Option<Vec<u8>>>(
        &mut self,
        key: &[u8],
        update: F,
    ) -> (r: Result<Option<Vec<u8>>, Error>)
        requires
            old(self).wf(),
            forall|current: Option<&[u8]>| call_requires(update, (current,)),
        ensures
            final(self).wf(),
            final(self).path == old(self).path,
            final(self).writable == old(self).writable,
            *final(final(self).node) == *final(old(self).node),
            *final(final(self).log) == *final(old(self).log),
            r matches Ok(before) ==> tree::seen(before) == tree::value_of(
                old(self).space().tree,
                key@,
            ),
            exists|current: Option<&[u8]>, value: Option<Vec<u8>>|
                {
                    &&& #[trigger] call_ensures(update, (current,), value)
                    &&& match current {
                        Some(s) => tree::value_of(old(self).space().tree, key@) == Some(s@),
                        None => tree::value_of(old(self).space().tree, key@) is None,
                    }
                    &&& update_told(
                        r,
                        old(self).space(),
                        final(self).space(),
                        old(self).at(),
                        old(self).writable,
                        key@,
                        tree::seen(value),
                    )
                },
    {
        let before: Option<Vec<u8>> = match self.get_kv(key) {
            Some(value) => Some(owned(value)),
            None => None,
        };
        let current: Option<&[u8]> = match &before {
            Some(value) => Some(value.as_slice()),
            None => None,
        };
        let value: Option<Vec<u8>> = update(current);
        assert(call_ensures(update, (current,), value));
        match self.replace_value(key, value) {
            Ok(_) => Ok(before),
            Err(e) => Err(e),
        }
    }
}

} // verus!
