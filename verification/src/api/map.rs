//! A bucket's key / value pairs as a map.

use crate::api::bucket::{self, delete_at, Bucket, Space};
use crate::api::changes::{self, ChangeOperation, ChangeTracker, TrackerView};
use crate::api::cursor::{self, Cursor};
use crate::api::tree::{self, Node, Tree};
use crate::assoc;
use crate::bytes::{self, less, owned, starts_with};
use crate::data::{Data, DataView, KVPair};
use crate::error::Error;
use vstd::prelude::*;

verus! {

/// Which keys are meant.
pub enum Keys<'k> {
    All,
    /// From the first on, and before the second.
    Between(&'k [u8], &'k [u8]),
    Prefix(&'k [u8]),
}

/// Whether a key is meant.
pub open spec fn meant(keys: Keys<'_>, key: Seq<u8>) -> bool {
    match keys {
        Keys::All => true,
        Keys::Between(start, end) => bytes::lex_le(start@, key) && bytes::lex_lt(key, end@),
        Keys::Prefix(prefix) => prefix@.is_prefix_of(key),
    }
}

/// The keys among a bucket's pairs that are meant, in key order.
pub open spec fn picked(l: Seq<DataView>, keys: Keys<'_>) -> Seq<Seq<u8>>
    decreases l.len(),
{
    if l.len() == 0 {
        Seq::empty()
    } else {
        let front = picked(l.drop_last(), keys);
        if l.last() is KeyValue && meant(keys, l.last().key()) {
            front.push(l.last().key())
        } else {
            front
        }
    }
}

/// Notes of one operation on several keys.
pub open spec fn noted_all(
    log: TrackerView,
    path: Seq<Seq<u8>>,
    keys: Seq<Seq<u8>>,
    operation: ChangeOperation,
) -> TrackerView
    decreases keys.len(),
{
    if keys.len() == 0 {
        log
    } else {
        bucket::noted(noted_all(log, path, keys.drop_last(), operation), path, keys.last(), operation)
    }
}

/// A bucket without the pairs whose keys are meant.
pub open spec fn thinned(t: Tree, keys: Keys<'_>) -> Tree {
    Tree {
        items: t.items.remove_keys(
            Set::new(|k: Seq<u8>| tree::value_of(t, k) is Some && meant(keys, k)),
        ),
        ..t
    }
}

/// What an entry of a bucket says of the bucket.
pub proof fn lemma_entry(t: Tree, l: Seq<DataView>, node: Node, i: int)
    requires
        node.wf(),
        node@ == t,
        l == cursor::data_in(t),
        0 <= i < l.len(),
    ensures
        t.items.contains_key(l[i].key()),
        l[i] is KeyValue ==> tree::value_of(t, l[i].key()) == Some(l[i]->KeyValue_1),
        l[i] is Bucket ==> t.items[l[i].key()] is Bucket,
        l.len() == node.leaves().len(),
{
    node.lemma_leaves();
    assert(tree::listing(t)[i] == (node.leaves()[i].0, node.leaves()[i].1.item()));
    assert(t.items.contains_key(node.leaves()[i].0));
}

/// Every pair of a bucket is listed.
pub proof fn lemma_listed_pair(node: Node, key: Seq<u8>)
    requires
        node.wf(),
        node@.items.contains_key(key),
    ensures
        exists|i: int|
            0 <= i < cursor::data_in(node@).len() && #[trigger] cursor::data_in(node@)[i]
                == cursor::data_of((key, node@.items[key])),
{
    node.lemma_leaves();
    let s = tree::items_listed(node.leaves());
    let l = cursor::data_in(node@);
    assoc::lemma_assoc_has(s, key);
    let i = choose|i: int| 0 <= i < s.len() && (#[trigger] s[i]).0 == key;
    crate::bytemap::lemma_ascending_distinct(s);
    assoc::lemma_assoc_at(s, i);
    assert(l[i] == cursor::data_of((key, node@.items[key])));
}

/// A bucket's entries are listed in key order.
pub proof fn lemma_data_in_order(node: Node)
    requires
        node.wf(),
    ensures
        cursor::in_order(cursor::data_in(node@)),
        cursor::data_in(node@).len() == node.leaves().len(),
{
    node.lemma_leaves();
    let l = cursor::data_in(node@);
    let leaves = node.leaves();
    assert forall|i: int, j: int| 0 <= i < j < l.len() implies bytes::lex_lt(
        (#[trigger] l[i]).key(),
        (#[trigger] l[j]).key(),
    ) by {
        assert(tree::listing(node@)[i] == (leaves[i].0, leaves[i].1.item()));
        assert(tree::listing(node@)[j] == (leaves[j].0, leaves[j].1.item()));
        assert(bytes::lex_lt(leaves[i].0, leaves[j].0));
    }
}

/// Whether a key that is meant is that of a pair.
pub open spec fn stands(l: Seq<DataView>, keys: Keys<'_>, key: Seq<u8>) -> bool {
    exists|i: int|
        0 <= i < l.len() && (#[trigger] l[i]) is KeyValue && l[i].key() == key && meant(keys, key)
}

/// Where each key that was picked stands.
pub proof fn lemma_picked(l: Seq<DataView>, keys: Keys<'_>)
    ensures
        forall|j: int|
            0 <= j < picked(l, keys).len() ==> stands(l, keys, #[trigger] picked(l, keys)[j]),
        forall|i: int|
            0 <= i < l.len() && (#[trigger] l[i]) is KeyValue && meant(keys, l[i].key())
                ==> picked(l, keys).contains(l[i].key()),
        cursor::in_order(l) ==> forall|a: int, b: int|
            0 <= a < b < picked(l, keys).len() ==> (#[trigger] picked(l, keys)[a]) != (
            #[trigger] picked(l, keys)[b]),
        picked(l, keys).len() <= l.len(),
    decreases l.len(),
{
    if l.len() > 0 {
        let front = l.drop_last();
        let p = picked(front, keys);
        let q = picked(l, keys);
        let n = l.len() - 1;
        lemma_picked(front, keys);
        assert forall|j: int| 0 <= j < q.len() implies stands(l, keys, #[trigger] q[j]) by {
            if j < p.len() {
                assert(q[j] == p[j]);
                assert(stands(front, keys, p[j]));
                let i = choose|i: int|
                    0 <= i < front.len() && (#[trigger] front[i]) is KeyValue && front[i].key()
                        == p[j] && meant(keys, p[j]);
                assert(l[i] == front[i]);
            } else {
                assert(l[n].key() == q[j]);
            }
        }
        assert forall|i: int|
            0 <= i < l.len() && (#[trigger] l[i]) is KeyValue && meant(
                keys,
                l[i].key(),
            ) implies q.contains(l[i].key()) by {
            if i < n {
                assert(front[i] == l[i]);
                assert(p.contains(l[i].key()));
                let j = choose|j: int| 0 <= j < p.len() && p[j] == l[i].key();
                assert(q[j] == l[i].key());
            } else {
                assert(q[q.len() - 1] == l[i].key());
            }
        }
        if cursor::in_order(l) {
            assert(cursor::in_order(front)) by {
                assert forall|i: int, j: int| 0 <= i < j < front.len() implies bytes::lex_lt(
                    (#[trigger] front[i]).key(),
                    (#[trigger] front[j]).key(),
                ) by {
                    assert(bytes::lex_lt(l[i].key(), l[j].key()));
                }
            }
            assert forall|a: int, b: int| 0 <= a < b < q.len() implies (#[trigger] q[a]) != (
            #[trigger] q[b]) by {
                if b < p.len() {
                    assert(p[a] != p[b]);
                } else {
                    assert(stands(front, keys, p[a]));
                    let i = choose|i: int|
                        0 <= i < front.len() && (#[trigger] front[i]) is KeyValue
                            && front[i].key() == p[a] && meant(keys, p[a]);
                    assert(bytes::lex_lt(l[i].key(), l[n].key()));
                    bytes::lemma_lex_irreflexive(l[n].key());
                }
            }
        }
    }
}

fn is_meant(keys: &Keys<'_>, key: &[u8]) -> (r: bool)
    ensures
        r == meant(*keys, key@),
{
    match keys {
        Keys::All => true,
        Keys::Between(start, end) => {
            proof {
                bytes::lemma_lex_total(start@, key@);
                bytes::lemma_lex_irreflexive(start@);
                if bytes::lex_lt(start@, key@) && bytes::lex_lt(key@, start@) {
                    bytes::lemma_lex_transitive(start@, key@, start@);
                }
            }
            !less(key, start) && less(key, end)
        },
        Keys::Prefix(prefix) => starts_with(key, prefix),
    }
}

/// The keys among a bucket's pairs that are meant.
pub fn pick(node: &Node, keys: &Keys<'_>) -> (r: Vec<Vec<u8>>)
    requires
        node.wf(),
    ensures
        changes::path_view(r@) == picked(cursor::data_in(node@), *keys),
{
    let ghost l = cursor::data_in(node@);
    proof {
        lemma_data_in_order(*node);
    }
    let mut out: Vec<Vec<u8>> = Vec::new();
    let mut i: usize = 0;
    assert(changes::path_view(out@) =~= picked(l.take(0), *keys));
    while i < node.len()
        invariant
            node.wf(),
            l == cursor::data_in(node@),
            l.len() == node.leaves().len(),
            i <= l.len(),
            changes::path_view(out@) == picked(l.take(i as int), *keys),
        decreases l.len() - i,
    {
        let ghost was = changes::path_view(out@);
        proof {
            node.lemma_leaves();
            assert(l.take(i + 1).drop_last() =~= l.take(i as int));
            assert(l.take(i + 1).last() == l[i as int]);
            assert(tree::listing(node@)[i as int] == (
                node.leaves()[i as int].0,
                node.leaves()[i as int].1.item(),
            ));
        }
        let key: &Vec<u8> = node.key_at(i);
        let leaf = node.leaf_at(i);
        proof {
            leaf.lemma_item();
        }
        match leaf {
            tree::Leaf::Kv(_) => {
                if is_meant(keys, key) {
                    out.push(owned(key));
                    assert(changes::path_view(out@) =~= was.push(key@));
                }
            },
            tree::Leaf::Bucket(_) => {},
        }
        i = i + 1;
    }
    assert(l.take(i as int) =~= l);
    out
}

/// Removes pairs of a bucket, whose keys were picked.
fn delete_picked(
    node: &mut Node,
    log: &mut ChangeTracker,
    path: &Vec<Vec<u8>>,
    keys: &Vec<Vec<u8>>,
    which: &Keys<'_>,
)
    requires
        old(node).wf(),
        old(log).wf(),
        changes::path_view(keys@) == picked(cursor::data_in(old(node)@), *which),
    ensures
        final(node).wf(),
        final(log).wf(),
        final(node)@ == thinned(old(node)@, *which),
        final(log)@ == noted_all(
            old(log)@,
            changes::path_view(path@),
            changes::path_view(keys@),
            ChangeOperation::Delete,
        ),
{
    let ghost t = node@;
    let ghost start = log@;
    let ghost l = cursor::data_in(t);
    let ghost at = changes::path_view(path@);
    let ghost k = changes::path_view(keys@);
    let ghost origin = *node;
    proof {
        lemma_picked(l, *which);
        lemma_data_in_order(*node);
    }
    let mut i: usize = 0;
    proof {
        assert(k.take(0) =~= Seq::<Seq<u8>>::empty());
        assert(node@.items =~= t.items.remove_keys(Set::new(|x: Seq<u8>| k.take(0).contains(x))));
    }
    while i < keys.len()
        invariant
            i <= keys@.len(),
            node.wf(),
            log.wf(),
            origin.wf(),
            origin@ == t,
            l == cursor::data_in(t),
            at == changes::path_view(path@),
            k == changes::path_view(keys@),
            k == picked(l, *which),
            forall|j: int| 0 <= j < k.len() ==> stands(l, *which, #[trigger] k[j]),
            forall|a: int, b: int|
                0 <= a < b < k.len() ==> (#[trigger] k[a]) != (#[trigger] k[b]),
            node@.items == t.items.remove_keys(
                Set::new(|x: Seq<u8>| k.take(i as int).contains(x)),
            ),
            node@.next_int == t.next_int,
            log@ == noted_all(start, at, k.take(i as int), ChangeOperation::Delete),
        decreases keys@.len() - i,
    {
        let ghost was = node@;
        let ghost key = k[i as int];
        proof {
            assert(stands(l, *which, k[i as int]));
            let x = choose|x: int|
                0 <= x < l.len() && (#[trigger] l[x]) is KeyValue && l[x].key() == key && meant(
                    *which,
                    key,
                );
            lemma_entry(t, l, origin, x);
            assert(!k.take(i as int).contains(key)) by {
                if k.take(i as int).contains(key) {
                    let j = choose|j: int|
                        0 <= j < k.take(i as int).len() && k.take(i as int)[j] == key;
                    assert(k[j] != k[i as int]);
                }
            }
            assert(was.items.contains_key(key) && was.items[key] == t.items[key]);
            assert(keys@[i as int]@ == key);
        }
        let _gone: Result<Vec<u8>, Error> = delete_at(node, log, path, &keys[i]);
        proof {
            assert(k.take(i + 1).drop_last() =~= k.take(i as int));
            assert(k.take(i + 1).last() == key);
            assert forall|x: Seq<u8>| k.take(i + 1).contains(x) <==> k.take(i as int).contains(x)
                || x == key by {
                if k.take(i as int).contains(x) {
                    let j = choose|j: int|
                        0 <= j < k.take(i as int).len() && k.take(i as int)[j] == x;
                    assert(k.take(i + 1)[j] == x);
                }
                if x == key {
                    assert(k.take(i + 1)[i as int] == x);
                }
                if k.take(i + 1).contains(x) {
                    let now = k.take(i + 1);
                    let j = choose|j: int| 0 <= j < now.len() && now[j] == x;
                    if j < i {
                        assert(k.take(i as int)[j] == x);
                    }
                }
            }
            assert(node@.items =~= t.items.remove_keys(
                Set::new(|x: Seq<u8>| k.take(i + 1).contains(x)),
            ));
        }
        i = i + 1;
    }
    proof {
        assert(k.take(i as int) =~= k);
        let doomed = Set::new(|x: Seq<u8>| tree::value_of(t, x) is Some && meant(*which, x));
        assert forall|x: Seq<u8>| t.items.contains_key(x) implies (k.contains(x)
            <==> doomed.contains(x)) by {
            if k.contains(x) {
                let j = choose|j: int| 0 <= j < k.len() && k[j] == x;
                assert(stands(l, *which, k[j]));
                let i = choose|i: int|
                    0 <= i < l.len() && (#[trigger] l[i]) is KeyValue && l[i].key() == x && meant(
                        *which,
                        x,
                    );
                lemma_entry(t, l, origin, i);
            }
            if doomed.contains(x) {
                lemma_listed_pair(origin, x);
                let i = choose|i: int|
                    0 <= i < l.len() && #[trigger] l[i] == cursor::data_of((x, t.items[x]));
                assert(l[i] is KeyValue && meant(*which, l[i].key()));
            }
        }
        assert(node@.items =~= thinned(t, *which).items);
    }
}

/// What storing several pairs leads to, up to the first that fails.
pub open spec fn put_all(s: Space, path: Seq<Seq<u8>>, entries: Seq<(Seq<u8>, Seq<u8>)>) -> (
    Result<nat, Error>,
    Space,
)
    decreases entries.len(),
{
    if entries.len() == 0 {
        (Ok(0), s)
    } else {
        match put_all(s, path, entries.drop_last()) {
            (Err(e), after) => (Err(e), after),
            (Ok(n), after) => match bucket::put(after, path, entries.last().0, entries.last().1) {
                (Err(e), end) => (Err(e), end),
                (Ok(_), end) => (Ok(n + 1), end),
            },
        }
    }
}

proof fn lemma_put_all_stops(
    s: Space,
    path: Seq<Seq<u8>>,
    entries: Seq<(Seq<u8>, Seq<u8>)>,
    n: int,
)
    requires
        0 <= n <= entries.len(),
        put_all(s, path, entries.take(n)).0 is Err,
    ensures
        put_all(s, path, entries) == put_all(s, path, entries.take(n)),
    decreases entries.len(),
{
    if n < entries.len() {
        assert(entries.drop_last().take(n) =~= entries.take(n));
        lemma_put_all_stops(s, path, entries.drop_last(), n);
    } else {
        assert(entries.take(n) =~= entries);
    }
}

/// What pairs say.
pub open spec fn pairs_view(entries: Seq<(Vec<u8>, Vec<u8>)>) -> Seq<(Seq<u8>, Seq<u8>)> {
    entries.map_values(|e: (Vec<u8>, Vec<u8>)| (e.0@, e.1@))
}

/// Removing a value if there is one.
pub open spec fn remove(s: Space, path: Seq<Seq<u8>>, key: Seq<u8>) -> (Option<Seq<u8>>, Space) {
    match tree::value_of(s.tree, key) {
        Some(value) => (Some(value), bucket::delete(s, path, key).1),
        None => (None, s),
    }
}

/// Removing several values, as far as there are any; how many there were.
pub open spec fn remove_all(s: Space, path: Seq<Seq<u8>>, keys: Seq<Seq<u8>>) -> (nat, Space)
    decreases keys.len(),
{
    if keys.len() == 0 {
        (0, s)
    } else {
        let (n, after) = remove_all(s, path, keys.drop_last());
        let (gone, end) = remove(after, path, keys.last());
        (
            n + if gone is Some {
                1nat
            } else {
                0
            },
            end,
        )
    }
}

impl<'a> Bucket<'a> {
    /// Whether a key has a value.
    pub fn contains_key(&self, key: &[u8]) -> (r: bool)
        requires
            self.wf(),
        ensures
            r == (tree::value_of(self.space().tree, key@) is Some),
    {
        match self.get_kv(key) {
            Some(_) => true,
            None => false,
        }
    }

    /// Stores a value; the same as `put`.
    pub fn insert(&mut self, key: &[u8], value: Vec<u8>) -> (r: Result<Option<Vec<u8>>, Error>)
        requires
            old(self).wf(),
        ensures
            final(self).wf(),
            final(self).path == old(self).path,
            final(self).writable == old(self).writable,
            *final(final(self).node) == *final(old(self).node),
            *final(final(self).log) == *final(old(self).log),
            if !old(self).writable {
                r == Err::<Option<Vec<u8>>, Error>(Error::ReadOnlyTx) && final(self).space() == old(
                    self,
                ).space()
            } else {
                let (want, after) = bucket::put(old(self).space(), old(self).at(), key@, value@);
                &&& final(self).space() == after
                &&& match (r, want) {
                    (Ok(before), Ok(was)) => tree::seen(before) == was,
                    (Err(e), Err(f)) => e == f,
                    _ => false,
                }
            },
    {
        self.put(key, value)
    }

    /// Removes a value if there is one.
    pub fn remove(&mut self, key: &[u8]) -> (r: Result<Option<Vec<u8>>, Error>)
        requires
            old(self).wf(),
        ensures
            final(self).wf(),
            final(self).path == old(self).path,
            final(self).writable == old(self).writable,
            *final(final(self).node) == *final(old(self).node),
            *final(final(self).log) == *final(old(self).log),
            ({
                let (want, after) = remove(old(self).space(), old(self).at(), key@);
                if !old(self).writable && want is Some {
                    r == Err::<Option<Vec<u8>>, Error>(Error::ReadOnlyTx) && final(self).space()
                        == old(self).space()
                } else {
                    r is Ok && tree::seen(r->Ok_0) == want && final(self).space() == after
                }
            }),
    {
        match self.get_kv(key) {
            None => return Ok(None),
            Some(_) => {},
        }
        match self.delete(key) {
            Ok(value) => Ok(Some(value)),
            Err(e) => Err(e),
        }
    }

    /// The pair with the smallest key.
    pub fn first(&self) -> (r: Option<KVPair<'_>>)
        requires
            self.wf(),
        ensures
            ({
                let l = cursor::data_in(self.space().tree);
                match (r, cursor::first_pair(l)) {
                    (Some(pair), Some(i)) => l[i] == DataView::KeyValue(pair@.0, pair@.1),
                    (None, None) => true,
                    _ => false,
                }
            }),
    {
        let mut pairs: cursor::KVPairs<Cursor<'_>> = cursor::KVPairs { i: Cursor::new(self.node) };
        pairs.next()
    }

    /// The pair with the largest key.
    pub fn last(&self) -> (r: Option<KVPair<'_>>)
        requires
            self.wf(),
        ensures
            ({
                let l = cursor::data_in(self.space().tree);
                match r {
                    Some(pair) => exists|i: int|
                        0 <= i < l.len() && #[trigger] l[i] == DataView::KeyValue(pair@.0, pair@.1)
                            && (forall|j: int| i < j < l.len() ==> !(#[trigger] l[j] is KeyValue)),
                    None => forall|j: int| 0 <= j < l.len() ==> !(#[trigger] l[j] is KeyValue),
                }
            }),
    {
        let mut c: Cursor<'_> = Cursor::new(self.node);
        let ghost l = c.list();
        c.seek_last();
        let ghost mut k: int = l.len() as int;
        assert(l.take(k) =~= l);
        loop
            invariant
                self.wf(),
                c.wf(),
                c.list() == l,
                l == cursor::data_in(self.space().tree),
                0 <= k <= l.len(),
                k > 0 ==> c.state().pos is Some,
                k == 0 ==> (l.len() == 0 && c.state().pos is None) || c.state().previous_called
                    && c.state().pos == Some(0int),
                c.state().pos matches Some(p) ==> 0 <= p < l.len(),
                k > 0 ==> cursor::behind(l, c.state()) == l.take(k),
                forall|j: int| k <= j < l.len() ==> !(#[trigger] l[j] is KeyValue),
            decreases k,
        {
            proof {
                cursor::law_cursor_returns_what_is_behind(l, c.state());
            }
            match c.previous() {
                Some(Data::KeyValue(pair)) => {
                    assert(l.take(k).last() == l[k - 1]);
                    return Some(pair);
                },
                Some(Data::Bucket(_)) => {
                    proof {
                        assert(l.take(k).last() == l[k - 1]);
                        assert(l.take(k).drop_last() =~= l.take(k - 1));
                        k = k - 1;
                    }
                },
                None => return None,
            }
        }
    }

    /// How many pairs there are.
    pub fn len(&self) -> (r: usize)
        requires
            self.wf(),
        ensures
            r == picked(cursor::data_in(self.space().tree), Keys::All).len(),
    {
        let keys: Vec<Vec<u8>> = pick(self.node, &Keys::All);
        assert(changes::path_view(keys@).len() == keys@.len());
        keys.len()
    }

    /// Whether there is no pair.
    pub fn is_empty(&self) -> (r: bool)
        requires
            self.wf(),
        ensures
            r == forall|k: Seq<u8>| #[trigger] tree::value_of(self.space().tree, k) is None,
    {
        let ghost t = self.space().tree;
        let ghost l = cursor::data_in(t);
        match self.first() {
            Some(pair) => {
                proof {
                    let i = cursor::first_pair(l)->Some_0;
                    lemma_first_pair(l);
                    lemma_entry(t, l, *self.node, i);
                    assert(tree::value_of(t, l[i].key()) is Some);
                }
                false
            },
            None => {
                proof {
                    lemma_first_pair(l);
                    assert forall|k: Seq<u8>| #[trigger] tree::value_of(t, k) is None by {
                        if tree::value_of(t, k) is Some {
                            lemma_listed_pair(*self.node, k);
                            let i = choose|i: int|
                                0 <= i < l.len() && #[trigger] l[i] == cursor::data_of(
                                    (k, t.items[k]),
                                );
                            assert(l[i] is KeyValue);
                        }
                    }
                }
                true
            },
        }
    }

    /// Removes the pairs whose keys are meant; how many there were.
    fn delete_meant(&mut self, which: Keys<'_>) -> (r: Result<usize, Error>)
        requires
            old(self).wf(),
        ensures
            final(self).wf(),
            final(self).path == old(self).path,
            final(self).writable == old(self).writable,
            *final(final(self).node) == *final(old(self).node),
            *final(final(self).log) == *final(old(self).log),
            ({
                let s = old(self).space();
                let keys = picked(cursor::data_in(s.tree), which);
                match r {
                    Ok(n) => (old(self).writable || n == 0) && n == keys.len()
                        && final(self).space() == (Space {
                        tree: thinned(s.tree, which),
                        log: noted_all(s.log, old(self).at(), keys, ChangeOperation::Delete),
                    }),
                    Err(e) => e == Error::ReadOnlyTx && !old(self).writable && keys.len() > 0
                        && final(self).space() == s,
                }
            }),
    {
        let keys: Vec<Vec<u8>> = pick(self.node, &which);
        assert(changes::path_view(keys@).len() == keys@.len());
        if keys.len() > 0 && !self.writable {
            return Err(Error::ReadOnlyTx);
        }
        delete_picked(self.node, self.log, &self.path, &keys, &which);
        Ok(keys.len())
    }

    /// Removes every pair; how many there were. Nested buckets stay.
    pub fn clear(&mut self) -> (r: Result<usize, Error>)
        requires
            old(self).wf(),
        ensures
            final(self).wf(),
            final(self).path == old(self).path,
            final(self).writable == old(self).writable,
            *final(final(self).node) == *final(old(self).node),
            *final(final(self).log) == *final(old(self).log),
            ({
                let s = old(self).space();
                let keys = picked(cursor::data_in(s.tree), Keys::All);
                match r {
                    Ok(n) => (old(self).writable || n == 0) && n == keys.len()
                        && final(self).space() == (Space {
                        tree: thinned(s.tree, Keys::All),
                        log: noted_all(s.log, old(self).at(), keys, ChangeOperation::Delete),
                    }),
                    Err(e) => e == Error::ReadOnlyTx && !old(self).writable && keys.len() > 0
                        && final(self).space() == s,
                }
            }),
    {
        self.delete_meant(Keys::All)
    }

    /// Removes every pair from `start` on and before `end_exclusive`; how many
    /// there were.
    pub fn delete_range(&mut self, start: &[u8], end_exclusive: &[u8]) -> (r: Result<usize, Error>)
        requires
            old(self).wf(),
        ensures
            final(self).wf(),
            final(self).path == old(self).path,
            final(self).writable == old(self).writable,
            *final(final(self).node) == *final(old(self).node),
            *final(final(self).log) == *final(old(self).log),
            ({
                let s = old(self).space();
                let which = Keys::Between(start, end_exclusive);
                let keys = picked(cursor::data_in(s.tree), which);
                match r {
                    Ok(n) => (old(self).writable || n == 0) && n == keys.len()
                        && final(self).space() == (Space {
                        tree: thinned(s.tree, which),
                        log: noted_all(s.log, old(self).at(), keys, ChangeOperation::Delete),
                    }),
                    Err(e) => e == Error::ReadOnlyTx && !old(self).writable && keys.len() > 0
                        && final(self).space() == s,
                }
            }),
    {
        self.delete_meant(Keys::Between(start, end_exclusive))
    }

    /// Removes every pair whose key begins with `prefix`; how many there were.
    pub fn delete_prefix(&mut self, prefix: &[u8]) -> (r: Result<usize, Error>)
        requires
            old(self).wf(),
        ensures
            final(self).wf(),
            final(self).path == old(self).path,
            final(self).writable == old(self).writable,
            *final(final(self).node) == *final(old(self).node),
            *final(final(self).log) == *final(old(self).log),
            ({
                let s = old(self).space();
                let which = Keys::Prefix(prefix);
                let keys = picked(cursor::data_in(s.tree), which);
                match r {
                    Ok(n) => (old(self).writable || n == 0) && n == keys.len()
                        && final(self).space() == (Space {
                        tree: thinned(s.tree, which),
                        log: noted_all(s.log, old(self).at(), keys, ChangeOperation::Delete),
                    }),
                    Err(e) => e == Error::ReadOnlyTx && !old(self).writable && keys.len() > 0
                        && final(self).space() == s,
                }
            }),
    {
        self.delete_meant(Keys::Prefix(prefix))
    }

    /// The values of several keys.
    pub fn multi_get(&self, keys: &Vec<Vec<u8>>) -> (r: Vec<Option<Vec<u8>>>)
        requires
            self.wf(),
        ensures
            r@.len() == keys@.len(),
            forall|i: int|
                0 <= i < r@.len() ==> tree::seen(#[trigger] r@[i]) == tree::value_of(
                    self.space().tree,
                    keys@[i]@,
                ),
    {
        let mut out: Vec<Option<Vec<u8>>> = Vec::new();
        let mut i: usize = 0;
        while i < keys.len()
            invariant
                self.wf(),
                i <= keys@.len(),
                out@.len() == i,
                forall|j: int|
                    0 <= j < i ==> tree::seen(#[trigger] out@[j]) == tree::value_of(
                        self.space().tree,
                        keys@[j]@,
                    ),
            decreases keys@.len() - i,
        {
            let value: Option<Vec<u8>> = match self.get_kv(&keys[i]) {
                Some(value) => Some(owned(value)),
                None => None,
            };
            out.push(value);
            i = i + 1;
        }
        out
    }

    /// Stores several pairs; how many there were.
    pub fn insert_many(&mut self, entries: &Vec<(Vec<u8>, Vec<u8>)>) -> (r: Result<usize, Error>)
        requires
            old(self).wf(),
        ensures
            final(self).wf(),
            final(self).path == old(self).path,
            final(self).writable == old(self).writable,
            *final(final(self).node) == *final(old(self).node),
            *final(final(self).log) == *final(old(self).log),
            if !old(self).writable && entries@.len() > 0 {
                r == Err::<usize, Error>(Error::ReadOnlyTx) && final(self).space() == old(
                    self,
                ).space()
            } else {
                let (want, after) = put_all(
                    old(self).space(),
                    old(self).at(),
                    pairs_view(entries@),
                );
                &&& final(self).space() == after
                &&& match (r, want) {
                    (Ok(n), Ok(m)) => n == m,
                    (Err(e), Err(f)) => e == f,
                    _ => false,
                }
            },
    {
        let ghost s = self.space();
        let ghost at = self.at();
        let ghost all = pairs_view(entries@);
        if !self.writable {
            if entries.len() > 0 {
                return Err(Error::ReadOnlyTx);
            }
            return Ok(0);
        }
        let mut i: usize = 0;
        assert(all.take(0) =~= Seq::<(Seq<u8>, Seq<u8>)>::empty());
        while i < entries.len()
            invariant
                self.wf(),
                self.writable,
                old(self).writable,
                self.path == old(self).path,
                *final(self.node) == *final(old(self).node),
                *final(self.log) == *final(old(self).log),
                s == old(self).space(),
                at == old(self).at(),
                all == pairs_view(entries@),
                i <= entries@.len(),
                put_all(s, at, all.take(i as int)) == (Ok::<nat, Error>(i as nat), self.space()),
            decreases entries@.len() - i,
        {
            proof {
                assert(all.take(i + 1).drop_last() =~= all.take(i as int));
                assert(all.take(i + 1).last() == all[i as int]);
            }
            match self.put(&entries[i].0, owned(&entries[i].1)) {
                Ok(_) => {},
                Err(e) => {
                    proof {
                        lemma_put_all_stops(s, at, all, i + 1);
                    }
                    return Err(e);
                },
            }
            i = i + 1;
        }
        assert(all.take(i as int) =~= all);
        Ok(i)
    }

    /// Removes several values, as far as there are any; how many there were.
    pub fn remove_many(&mut self, keys: &Vec<Vec<u8>>) -> (r: Result<usize, Error>)
        requires
            old(self).wf(),
        ensures
            final(self).wf(),
            final(self).path == old(self).path,
            final(self).writable == old(self).writable,
            *final(final(self).node) == *final(old(self).node),
            *final(final(self).log) == *final(old(self).log),
            if old(self).writable {
                let (n, after) = remove_all(
                    old(self).space(),
                    old(self).at(),
                    changes::path_view(keys@),
                );
                r is Ok && r->Ok_0 == n && final(self).space() == after
            } else {
                final(self).space() == old(self).space() && match r {
                    Ok(n) => n == 0 && forall|i: int|
                        0 <= i < keys@.len() ==> tree::value_of(
                            old(self).space().tree,
                            (#[trigger] keys@[i])@,
                        ) is None,
                    Err(e) => e == Error::ReadOnlyTx && exists|i: int|
                        0 <= i < keys@.len() && tree::value_of(
                            old(self).space().tree,
                            (#[trigger] keys@[i])@,
                        ) is Some,
                }
            },
    {
        let ghost s = self.space();
        let ghost at = self.at();
        let ghost all = changes::path_view(keys@);
        let mut count: usize = 0;
        let mut i: usize = 0;
        assert(all.take(0) =~= Seq::<Seq<u8>>::empty());
        while i < keys.len()
            invariant
                self.wf(),
                self.writable == old(self).writable,
                self.path == old(self).path,
                *final(self.node) == *final(old(self).node),
                *final(self.log) == *final(old(self).log),
                s == old(self).space(),
                at == old(self).at(),
                all == changes::path_view(keys@),
                i <= keys@.len(),
                count <= i,
                if old(self).writable {
                    remove_all(s, at, all.take(i as int)) == (count as nat, self.space())
                } else {
                    self.space() == s && count == 0 && forall|j: int|
                        0 <= j < i ==> tree::value_of(s.tree, (#[trigger] keys@[j])@) is None
                },
            decreases keys@.len() - i,
        {
            proof {
                assert(all.take(i + 1).drop_last() =~= all.take(i as int));
                assert(all.take(i + 1).last() == keys@[i as int]@);
            }
            match self.remove(&keys[i]) {
                Ok(Some(_)) => {
                    count = count + 1;
                },
                Ok(None) => {},
                Err(e) => {
                    assert(tree::value_of(s.tree, keys@[i as int]@) is Some);
                    return Err(e);
                },
            }
            i = i + 1;
        }
        assert(all.take(i as int) =~= all);
        Ok(count)
    }
}

/// Where the first pair of a list stands.
pub proof fn lemma_first_pair(l: Seq<DataView>)
    ensures
        match cursor::first_pair(l) {
            Some(i) => 0 <= i < l.len() && l[i] is KeyValue && (forall|j: int|
                0 <= j < i ==> !(#[trigger] l[j] is KeyValue)),
            None => forall|j: int| 0 <= j < l.len() ==> !(#[trigger] l[j] is KeyValue),
        },
    decreases l.len(),
{
    if l.len() > 0 && !(l[0] is KeyValue) {
        let rest = l.drop_first();
        lemma_first_pair(rest);
        match cursor::first_pair(rest) {
            Some(i) => {
                assert forall|j: int| 0 <= j < i + 1 implies !(#[trigger] l[j] is KeyValue) by {
                    if j > 0 {
                        assert(l[j] == rest[j - 1]);
                    }
                }
            },
            None => {
                assert forall|j: int| 0 <= j < l.len() implies !(#[trigger] l[j] is KeyValue) by {
                    if j > 0 {
                        assert(l[j] == rest[j - 1]);
                    }
                }
            },
        }
    }
}

/// Clearing a bucket leaves no pair and takes no nested bucket.
pub proof fn law_clear_leaves_only_buckets(t: Tree, key: Seq<u8>)
    ensures
        tree::value_of(thinned(t, Keys::All), key) is None,
        tree::child_of(t, key) is Ok ==> tree::child_of(thinned(t, Keys::All), key)
            == tree::child_of(t, key),
{
}

/// Removing a range of pairs takes those in the range and no others.
pub proof fn law_delete_range_takes_the_range(t: Tree, start: &[u8], end: &[u8], key: Seq<u8>)
    ensures
        tree::value_of(thinned(t, Keys::Between(start, end)), key) == (if bytes::lex_le(
            start@,
            key,
        ) && bytes::lex_lt(key, end@) {
            None
        } else {
            tree::value_of(t, key)
        }),
{
}

} // verus!
