//! An ordered map with byte-string keys.

use crate::assoc;
use crate::bytes::{self, order, starts_with, Order};
use vstd::prelude::*;

verus! {

/// An ordered map with byte-string keys.
#[derive(Debug)]
pub struct ByteMap<V> {
    pub(crate) entries: Vec<(Vec<u8>, V)>,
}

/// A list of entries with its keys by the values they hold.
pub open spec fn keyed<V>(entries: Seq<(Vec<u8>, V)>) -> Seq<(Seq<u8>, V)> {
    entries.map_values(|e: (Vec<u8>, V)| (e.0@, e.1))
}

/// Whether every key is larger than the one before.
pub open spec fn ascending<V>(s: Seq<(Seq<u8>, V)>) -> bool {
    forall|i: int, j: int|
        0 <= i < j < s.len() ==> bytes::lex_lt((#[trigger] s[i]).0, (#[trigger] s[j]).0)
}

pub proof fn lemma_ascending_distinct<V>(s: Seq<(Seq<u8>, V)>)
    requires
        ascending(s),
    ensures
        assoc::distinct(s),
{
    assert forall|i: int, j: int| 0 <= i < j < s.len() implies (#[trigger] s[i]).0 != (
    #[trigger] s[j]).0 by {
        bytes::lemma_lex_irreflexive(s[i].0);
    }
}

/// The listing of a map in key order.
pub open spec fn listed<V>(m: Map<Seq<u8>, V>) -> Seq<(Seq<u8>, V)> {
    choose|s: Seq<(Seq<u8>, V)>| ascending(s) && #[trigger] assoc::assoc(s) == m
}

/// A map has one listing in key order.
pub proof fn lemma_listed<V>(s: Seq<(Seq<u8>, V)>)
    requires
        ascending(s),
    ensures
        listed(assoc::assoc(s)) == s,
{
    let m = assoc::assoc(s);
    let t = listed(m);
    assert(ascending(t) && assoc::assoc(t) == m);
    lemma_listing_unique(s, t);
}

proof fn lemma_last_key<V>(s: Seq<(Seq<u8>, V)>, t: Seq<(Seq<u8>, V)>)
    requires
        ascending(s),
        ascending(t),
        assoc::assoc(s) == assoc::assoc(t),
        s.len() > 0,
    ensures
        t.len() > 0,
        bytes::lex_le(s.last().0, t.last().0),
{
    let n = s.len() - 1;
    lemma_ascending_distinct(s);
    assoc::lemma_assoc_at(s, n);
    assoc::lemma_assoc_has(t, s[n].0);
    let j = choose|j: int| 0 <= j < t.len() && (#[trigger] t[j]).0 == s[n].0;
    if j < t.len() - 1 {
        assert(bytes::lex_lt(t[j].0, t[t.len() - 1].0));
    }
}

proof fn lemma_front<V>(s: Seq<(Seq<u8>, V)>)
    requires
        ascending(s),
        s.len() > 0,
    ensures
        ascending(s.drop_last()),
        assoc::assoc(s.drop_last()) == assoc::assoc(s).remove(s.last().0),
        assoc::assoc(s)[s.last().0] == s.last().1,
{
    let front = s.drop_last();
    assert forall|i: int, j: int| 0 <= i < j < front.len() implies bytes::lex_lt(
        (#[trigger] front[i]).0,
        (#[trigger] front[j]).0,
    ) by {
        assert(bytes::lex_lt(s[i].0, s[j].0));
    }
    lemma_ascending_distinct(s);
    assoc::lemma_assoc_remove(s, s.len() - 1);
    assert(s.remove(s.len() - 1) =~= front);
}

/// Two listings of one map in key order are the same.
pub proof fn lemma_listing_unique<V>(s: Seq<(Seq<u8>, V)>, t: Seq<(Seq<u8>, V)>)
    requires
        ascending(s),
        ascending(t),
        assoc::assoc(s) == assoc::assoc(t),
    ensures
        s == t,
    decreases s.len(),
{
    if s.len() > 0 {
        lemma_last_key(s, t);
        lemma_last_key(t, s);
        bytes::lemma_lex_total(s.last().0, t.last().0);
        if s.last().0 != t.last().0 {
            bytes::lemma_lex_transitive(s.last().0, t.last().0, s.last().0);
            bytes::lemma_lex_irreflexive(s.last().0);
        }
        lemma_front(s);
        lemma_front(t);
        lemma_listing_unique(s.drop_last(), t.drop_last());
        assert(s =~= s.drop_last().push(s.last()));
        assert(t =~= t.drop_last().push(t.last()));
    } else if t.len() > 0 {
        lemma_last_key(t, s);
    } else {
        assert(s =~= t);
    }
}

proof fn lemma_value_update<V>(entries: Seq<(Vec<u8>, V)>, i: int)
    requires
        ascending(keyed(entries)),
        0 <= i < entries.len(),
    ensures
        forall|v: V|
            ({
                let s = keyed(entries);
                let t = keyed(#[trigger] entries.update(i, (entries[i].0, v)));
                &&& t == s.update(i, (s[i].0, v))
                &&& ascending(t)
                &&& assoc::assoc(t) == assoc::assoc(s).insert(s[i].0, v)
            }),
{
    let s = keyed(entries);
    lemma_ascending_distinct(s);
    assert forall|v: V|
        ({
            let t = keyed(#[trigger] entries.update(i, (entries[i].0, v)));
            &&& t == s.update(i, (s[i].0, v))
            &&& ascending(t)
            &&& assoc::assoc(t) == assoc::assoc(s).insert(s[i].0, v)
        }) by {
        let t = keyed(entries.update(i, (entries[i].0, v)));
        assert(t =~= s.update(i, (s[i].0, v)));
        assoc::lemma_assoc_update(s, i, v);
        assert forall|a: int, b: int| 0 <= a < b < t.len() implies bytes::lex_lt(
            (#[trigger] t[a]).0,
            (#[trigger] t[b]).0,
        ) by {
            assert(bytes::lex_lt(s[a].0, s[b].0));
        }
    }
}

impl<V> View for ByteMap<V> {
    type V = Map<Seq<u8>, V>;

    closed spec fn view(&self) -> Map<Seq<u8>, V> {
        assoc::assoc(self.listing())
    }
}

impl<V> ByteMap<V> {
    /// The entries in key order.
    pub closed spec fn listing(&self) -> Seq<(Seq<u8>, V)> {
        keyed(self.entries@)
    }

    /// Whether the entries are in key order.
    pub closed spec fn wf(&self) -> bool {
        ascending(keyed(self.entries@))
    }

    /// The listing is in key order, and says what the map holds.
    pub proof fn lemma_listing(&self)
        requires
            self.wf(),
        ensures
            ascending(self.listing()),
            assoc::distinct(self.listing()),
            self@ == assoc::assoc(self.listing()),
    {
        lemma_ascending_distinct(self.listing());
    }

    /// What the listing is made of.
    pub(crate) proof fn lemma_entries(&self)
        ensures
            self.listing() == keyed(self.entries@),
            self.wf() == ascending(keyed(self.entries@)),
            self@ == assoc::assoc(self.listing()),
    {
    }

    /// An empty map.
    pub fn new() -> (r: Self)
        ensures
            r.wf(),
            r@ == Map::<Seq<u8>, V>::empty(),
            r.listing() == Seq::<(Seq<u8>, V)>::empty(),
    {
        let entries: Vec<(Vec<u8>, V)> = Vec::new();
        assert(keyed(entries@) =~= Seq::<(Seq<u8>, V)>::empty());
        ByteMap { entries }
    }

    /// How many entries there are.
    pub fn len(&self) -> (r: usize)
        ensures
            r == self.listing().len(),
    {
        self.entries.len()
    }

    /// The key of the entry at `i`.
    pub fn key_at(&self, i: usize) -> (r: &Vec<u8>)
        requires
            i < self.listing().len(),
        ensures
            r@ == self.listing()[i as int].0,
    {
        &self.entries[i].0
    }

    /// The value of the entry at `i`.
    pub fn value_at(&self, i: usize) -> (r: &V)
        requires
            i < self.listing().len(),
        ensures
            *r == self.listing()[i as int].1,
    {
        &self.entries[i].1
    }

    /// Finds `key`: where it stands, or where it belongs.
    pub fn find(&self, key: &[u8]) -> (r: Result<usize, usize>)
        requires
            self.wf(),
        ensures
            match r {
                Ok(i) => i < self.listing().len() && self.listing()[i as int].0 == key@
                    && self@.contains_key(key@) && self@[key@] == self.listing()[i as int].1,
                Err(i) => i <= self.listing().len() && !self@.contains_key(key@) && (forall|j: int|
                    0 <= j < i ==> bytes::lex_lt((#[trigger] self.listing()[j]).0, key@)) && (
                forall|j: int|
                    i <= j < self.listing().len() ==> bytes::lex_lt(
                        key@,
                        (#[trigger] self.listing()[j]).0,
                    )),
            },
    {
        let ghost s = keyed(self.entries@);
        proof {
            lemma_ascending_distinct(s);
        }
        let mut low: usize = 0;
        let mut high: usize = self.entries.len();
        while low < high
            invariant
                s == keyed(self.entries@),
                ascending(s),
                assoc::distinct(s),
                low <= high <= s.len(),
                forall|j: int| 0 <= j < low ==> bytes::lex_lt((#[trigger] s[j]).0, key@),
                forall|j: int| high <= j < s.len() ==> bytes::lex_lt(key@, (#[trigger] s[j]).0),
            decreases high - low,
        {
            let mid: usize = low + (high - low) / 2;
            match order(&self.entries[mid].0, key) {
                Order::Equal => {
                    proof {
                        assoc::lemma_assoc_at(s, mid as int);
                    }
                    return Ok(mid);
                },
                Order::Less => {
                    proof {
                        assert forall|j: int| 0 <= j < mid + 1 implies bytes::lex_lt(
                            (#[trigger] s[j]).0,
                            key@,
                        ) by {
                            if j < mid {
                                bytes::lemma_lex_transitive(s[j].0, s[mid as int].0, key@);
                            }
                        }
                    }
                    low = mid + 1;
                },
                Order::Greater => {
                    proof {
                        bytes::lemma_lex_total(s[mid as int].0, key@);
                        assert forall|j: int| mid <= j < s.len() implies bytes::lex_lt(
                            key@,
                            (#[trigger] s[j]).0,
                        ) by {
                            if j > mid {
                                bytes::lemma_lex_transitive(key@, s[mid as int].0, s[j].0);
                            }
                        }
                    }
                    high = mid;
                },
            }
        }
        proof {
            assoc::lemma_assoc_has(s, key@);
            bytes::lemma_lex_irreflexive(key@);
        }
        Err(low)
    }

    /// Whether the map holds `key`.
    pub fn contains_key(&self, key: &[u8]) -> (r: bool)
        requires
            self.wf(),
        ensures
            r == self@.contains_key(key@),
    {
        match self.find(key) {
            Ok(_) => true,
            Err(_) => false,
        }
    }

    /// The value of `key`.
    pub fn get(&self, key: &[u8]) -> (r: Option<&V>)
        requires
            self.wf(),
        ensures
            match r {
                Some(v) => self@.contains_key(key@) && *v == self@[key@],
                None => !self@.contains_key(key@),
            },
    {
        match self.find(key) {
            Ok(i) => Some(&self.entries[i].1),
            Err(_) => None,
        }
    }

    /// Sets the value of `key`, and hands back the one before.
    pub fn insert(&mut self, key: Vec<u8>, value: V) -> (r: Option<V>)
        requires
            old(self).wf(),
        ensures
            final(self).wf(),
            final(self)@ == old(self)@.insert(key@, value),
            match r {
                Some(v) => old(self)@.contains_key(key@) && v == old(self)@[key@],
                None => !old(self)@.contains_key(key@),
            },
    {
        let ghost s = keyed(self.entries@);
        proof {
            lemma_ascending_distinct(s);
        }
        match self.find(&key) {
            Ok(i) => {
                let mut pair: (Vec<u8>, V) = (key, value);
                let ghost k = pair.0@;
                let ghost given = pair.1;
                std::mem::swap(&mut pair, &mut self.entries[i]);
                proof {
                    assert(keyed(self.entries@) =~= s.update(i as int, (k, given)));
                    assoc::lemma_assoc_update(s, i as int, given);
                    let t = keyed(self.entries@);
                    assert forall|a: int, b: int| 0 <= a < b < t.len() implies bytes::lex_lt(
                        (#[trigger] t[a]).0,
                        (#[trigger] t[b]).0,
                    ) by {
                        assert(bytes::lex_lt(s[a].0, s[b].0));
                    }
                }
                Some(pair.1)
            },
            Err(i) => {
                let ghost k = key@;
                proof {
                    assoc::lemma_assoc_has(s, k);
                }
                self.entries.insert(i, (key, value));
                proof {
                    let t = keyed(self.entries@);
                    assert(t =~= s.insert(i as int, (k, value)));
                    assoc::lemma_assoc_insert(s, i as int, k, value);
                    assert forall|a: int, b: int| 0 <= a < b < t.len() implies bytes::lex_lt(
                        (#[trigger] t[a]).0,
                        (#[trigger] t[b]).0,
                    ) by {
                        let x = if a < i {
                            a
                        } else {
                            a - 1
                        };
                        let y = if b < i {
                            b
                        } else {
                            b - 1
                        };
                        if a != i {
                            assert(t[a] == s[x]);
                        }
                        if b != i {
                            assert(t[b] == s[y]);
                        }
                        if a != i && b != i {
                            assert(bytes::lex_lt(s[x].0, s[y].0));
                        }
                    }
                }
                None
            },
        }
    }

    /// Removes `key`, and hands back its value.
    pub fn remove(&mut self, key: &[u8]) -> (r: Option<V>)
        requires
            old(self).wf(),
        ensures
            final(self).wf(),
            final(self)@ == old(self)@.remove(key@),
            match r {
                Some(v) => old(self)@.contains_key(key@) && v == old(self)@[key@],
                None => !old(self)@.contains_key(key@),
            },
    {
        let ghost s = keyed(self.entries@);
        proof {
            lemma_ascending_distinct(s);
        }
        match self.find(key) {
            Ok(i) => {
                let pair: (Vec<u8>, V) = self.entries.remove(i);
                proof {
                    let t = keyed(self.entries@);
                    assert(t =~= s.remove(i as int));
                    assoc::lemma_assoc_remove(s, i as int);
                    assert forall|a: int, b: int| 0 <= a < b < t.len() implies bytes::lex_lt(
                        (#[trigger] t[a]).0,
                        (#[trigger] t[b]).0,
                    ) by {
                        let x = if a < i {
                            a
                        } else {
                            a + 1
                        };
                        let y = if b < i {
                            b
                        } else {
                            b + 1
                        };
                        assert(t[a] == s[x] && t[b] == s[y]);
                        assert(bytes::lex_lt(s[x].0, s[y].0));
                    }
                }
                Some(pair.1)
            },
            Err(_) => {
                assert(self@.remove(key@) =~= self@);
                None
            },
        }
    }

    /// The value of the entry at `i`, to be changed.
    pub fn value_mut(&mut self, i: usize) -> (r: &mut V)
        requires
            old(self).wf(),
            i < old(self).listing().len(),
        ensures
            *r == old(self).listing()[i as int].1,
            final(self).wf(),
            final(self).listing() == old(self).listing().update(
                i as int,
                (old(self).listing()[i as int].0, *final(r)),
            ),
            final(self)@ == old(self)@.insert(old(self).listing()[i as int].0, *final(r)),
    {
        proof {
            lemma_ascending_distinct(self.listing());
            lemma_value_update(self.entries@, i as int);
        }
        &mut self.entries[i].1
    }

    /// Removes every entry whose key begins with `prefix`.
    pub fn remove_prefix(&mut self, prefix: &[u8])
        requires
            old(self).wf(),
        ensures
            final(self).wf(),
            final(self)@ == old(self)@.remove_keys(
                Set::new(|k: Seq<u8>| prefix@.is_prefix_of(k)),
            ),
    {
        let ghost s = keyed(self.entries@);
        let ghost doomed = Set::new(|k: Seq<u8>| prefix@.is_prefix_of(k));
        proof {
            lemma_ascending_distinct(s);
        }
        let mut i: usize = 0;
        while i < self.entries.len()
            invariant
                i <= self.entries@.len(),
                ascending(keyed(self.entries@)),
                doomed == Set::new(|k: Seq<u8>| prefix@.is_prefix_of(k)),
                forall|j: int|
                    0 <= j < i ==> !prefix@.is_prefix_of((#[trigger] keyed(self.entries@)[j]).0),
                assoc::assoc(keyed(self.entries@)).remove_keys(doomed) == assoc::assoc(
                    s,
                ).remove_keys(doomed),
            decreases self.entries@.len() - i,
        {
            let ghost was = keyed(self.entries@);
            if starts_with(&self.entries[i].0, prefix) {
                let _gone: (Vec<u8>, V) = self.entries.remove(i);
                proof {
                    lemma_ascending_distinct(was);
                    let t = keyed(self.entries@);
                    assert(t =~= was.remove(i as int));
                    assoc::lemma_assoc_remove(was, i as int);
                    let m = assoc::assoc(was);
                    assert(m.remove(was[i as int].0).remove_keys(doomed) =~= m.remove_keys(
                        doomed,
                    ));
                    assert forall|a: int, b: int| 0 <= a < b < t.len() implies bytes::lex_lt(
                        (#[trigger] t[a]).0,
                        (#[trigger] t[b]).0,
                    ) by {
                        let x = if a < i {
                            a
                        } else {
                            a + 1
                        };
                        let y = if b < i {
                            b
                        } else {
                            b + 1
                        };
                        assert(t[a] == was[x] && t[b] == was[y]);
                        assert(bytes::lex_lt(was[x].0, was[y].0));
                    }
                    assert forall|j: int| 0 <= j < i implies !prefix@.is_prefix_of(
                        (#[trigger] t[j]).0,
                    ) by {
                        assert(t[j] == was[j]);
                    }
                }
            } else {
                i = i + 1;
            }
        }
        proof {
            let t = keyed(self.entries@);
            lemma_ascending_distinct(t);
            let m = assoc::assoc(t);
            assert forall|k: Seq<u8>| m.contains_key(k) implies !doomed.contains(k) by {
                assoc::lemma_assoc_has(t, k);
                let j = choose|j: int| 0 <= j < t.len() && (#[trigger] t[j]).0 == k;
                assert(!prefix@.is_prefix_of(t[j].0));
            }
            assert(m.remove_keys(doomed) =~= m);
        }
    }
}

} // verus!
