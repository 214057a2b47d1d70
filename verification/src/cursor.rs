//! Ordered traversal of a bucket's entries.

use crate::bytes::{self, less, order, Order};
use crate::data::{BucketName, Data, DataView, KVPair};
use vstd::prelude::*;

verus! {

/// Entries by the values they hold.
pub open spec fn views_of(items: Seq<Data<'_>>) -> Seq<DataView> {
    items.map_values(|d: Data<'_>| d@)
}

/// Whether no later entry has a smaller key.
pub open spec fn ordered(s: Seq<DataView>) -> bool {
    forall|i: int, j: int|
        0 <= i < j < s.len() ==> bytes::lex_le((#[trigger] s[i]).key(), (#[trigger] s[j]).key())
}

/// Whether some entry has the key `key`.
pub open spec fn holds(s: Seq<DataView>, key: Seq<u8>) -> bool {
    exists|i: int| 0 <= i < s.len() && (#[trigger] s[i]).key() == key
}

/// An ordered bucket cursor.
pub struct Cursor<'tx> {
    items: Vec<Data<'tx>>,
    index: usize,
    started: bool,
}

/// Sorts entries by key.
fn sort_items<'tx>(items: Vec<Data<'tx>>) -> (r: Vec<Data<'tx>>)
    ensures
        ordered(views_of(r@)),
        views_of(r@).to_multiset() == views_of(items@).to_multiset(),
{
    let mut sorted: Vec<Data<'tx>> = Vec::new();
    let ghost all = views_of(items@);
    let mut i: usize = 0;
    assert(views_of(sorted@) =~= all.take(0));
    while i < items.len()
        invariant
            i <= items@.len(),
            all == views_of(items@),
            ordered(views_of(sorted@)),
            views_of(sorted@).to_multiset() == all.take(i as int).to_multiset(),
        decreases items@.len() - i,
    {
        let item: Data<'tx> = items[i];
        let ghost s = views_of(sorted@);
        let mut low: usize = 0;
        let mut high: usize = sorted.len();
        while low < high
            invariant
                low <= high <= sorted@.len(),
                s == views_of(sorted@),
                ordered(s),
                low > 0 ==> bytes::lex_le(s[low - 1].key(), item@.key()),
                high < s.len() ==> bytes::lex_lt(item@.key(), s[high as int].key()),
            decreases high - low,
        {
            let mid: usize = low + (high - low) / 2;
            if less(item.key(), sorted[mid].key()) {
                high = mid;
            } else {
                proof {
                    bytes::lemma_lex_total(s[mid as int].key(), item@.key());
                }
                low = mid + 1;
            }
        }
        sorted.insert(low, item);
        proof {
            let t = views_of(sorted@);
            let key = item@.key();
            assert(t =~= s.insert(low as int, item@));
            assert forall|a: int, b: int| 0 <= a < b < t.len() implies bytes::lex_le(
                (#[trigger] t[a]).key(),
                (#[trigger] t[b]).key(),
            ) by {
                if b < low {
                    assert(bytes::lex_le(s[a].key(), s[b].key()));
                } else if b == low {
                    assert(t[a] == s[a]);
                    if a < low - 1 {
                        assert(bytes::lex_le(s[a].key(), s[low - 1].key()));
                        lemma_lex_le_transitive(s[a].key(), s[low - 1].key(), key);
                    }
                } else if a == low {
                    assert(t[b] == s[b - 1]);
                    if b - 1 > low {
                        assert(bytes::lex_le(s[low as int].key(), s[b - 1].key()));
                        lemma_lex_le_transitive(key, s[low as int].key(), s[b - 1].key());
                    }
                } else {
                    let x = if a < low {
                        a
                    } else {
                        a - 1
                    };
                    assert(t[a] == s[x] && t[b] == s[b - 1]);
                    assert(bytes::lex_le(s[x].key(), s[b - 1].key()));
                }
            }
            vstd::seq_lib::to_multiset_insert(s, low as int, item@);
            vstd::seq_lib::to_multiset_build(all.take(i as int), item@);
            assert(all.take(i + 1) =~= all.take(i as int).push(item@));
        }
        i = i + 1;
    }
    assert(all.take(i as int) =~= all);
    sorted
}

proof fn lemma_lex_le_transitive(a: Seq<u8>, b: Seq<u8>, c: Seq<u8>)
    requires
        bytes::lex_le(a, b),
        bytes::lex_le(b, c),
    ensures
        bytes::lex_le(a, c),
{
    if a != b && b != c {
        bytes::lemma_lex_transitive(a, b, c);
    }
}

impl<'tx> Cursor<'tx> {
    /// The entries, in order.
    pub closed spec fn items(&self) -> Seq<DataView> {
        views_of(self.items@)
    }

    /// The entry the cursor stands at.
    pub closed spec fn index(&self) -> int {
        self.index as int
    }

    /// Whether the entry was handed out by `next`.
    pub closed spec fn started(&self) -> bool {
        self.started
    }

    /// Whether the entries are in order.
    pub open spec fn wf(&self) -> bool {
        ordered(self.items())
    }

    /// The entry the cursor stands at, if there is one.
    pub open spec fn here(&self) -> Option<DataView> {
        if self.index() < self.items().len() {
            Some(self.items()[self.index()])
        } else {
            None
        }
    }

    /// A cursor before the first of some entries.
    pub fn new(items: Vec<Data<'tx>>) -> (r: Self)
        ensures
            r.wf(),
            r.items().to_multiset() == views_of(items@).to_multiset(),
            r.index() == 0,
            !r.started(),
    {
        Cursor { items: sort_items(items), index: 0, started: false }
    }

    /// Moves to `key`, or to where it belongs; `next` hands out that entry.
    pub fn seek(&mut self, key: &[u8]) -> (r: bool)
        requires
            old(self).wf(),
        ensures
            final(self).wf(),
            final(self).items() == old(self).items(),
            !final(self).started(),
            r == holds(old(self).items(), key@),
            0 <= final(self).index() <= final(self).items().len(),
            r ==> final(self).here() is Some && final(self).here()->0.key() == key@,
            !r ==> (forall|i: int|
                0 <= i < final(self).index() ==> bytes::lex_lt(
                    (#[trigger] final(self).items()[i]).key(),
                    key@,
                )) && (forall|i: int|
                final(self).index() <= i < final(self).items().len() ==> bytes::lex_lt(
                    key@,
                    (#[trigger] final(self).items()[i]).key(),
                )),
    {
        let ghost s = views_of(self.items@);
        self.started = false;
        let mut low: usize = 0;
        let mut high: usize = self.items.len();
        while low < high
            invariant
                self.items@ == old(self).items@,
                !self.started,
                s == views_of(self.items@),
                ordered(s),
                low <= high <= s.len(),
                forall|j: int| 0 <= j < low ==> bytes::lex_lt((#[trigger] s[j]).key(), key@),
                forall|j: int|
                    high <= j < s.len() ==> bytes::lex_lt(key@, (#[trigger] s[j]).key()),
            decreases high - low,
        {
            let mid: usize = low + (high - low) / 2;
            match order(self.items[mid].key(), key) {
                Order::Equal => {
                    self.index = mid;
                    assert(s[mid as int].key() == key@);
                    return true;
                },
                Order::Less => {
                    proof {
                        assert forall|j: int| 0 <= j < mid + 1 implies bytes::lex_lt(
                            (#[trigger] s[j]).key(),
                            key@,
                        ) by {
                            if j < mid {
                                assert(bytes::lex_le(s[j].key(), s[mid as int].key()));
                                if s[j].key() != s[mid as int].key() {
                                    bytes::lemma_lex_transitive(
                                        s[j].key(),
                                        s[mid as int].key(),
                                        key@,
                                    );
                                }
                            }
                        }
                    }
                    low = mid + 1;
                },
                Order::Greater => {
                    proof {
                        bytes::lemma_lex_total(s[mid as int].key(), key@);
                        assert forall|j: int| mid <= j < s.len() implies bytes::lex_lt(
                            key@,
                            (#[trigger] s[j]).key(),
                        ) by {
                            if j > mid {
                                assert(bytes::lex_le(s[mid as int].key(), s[j].key()));
                                if s[j].key() != s[mid as int].key() {
                                    bytes::lemma_lex_transitive(
                                        key@,
                                        s[mid as int].key(),
                                        s[j].key(),
                                    );
                                }
                            }
                        }
                    }
                    high = mid;
                },
            }
        }
        self.index = low;
        proof {
            bytes::lemma_lex_irreflexive(key@);
        }
        false
    }

    /// The entry the cursor stands at.
    pub fn current(&self) -> (r: Option<Data<'tx>>)
        ensures
            match r {
                Some(d) => self.here() == Some(d@),
                None => self.here() is None,
            },
    {
        if self.index < self.items.len() {
            Some(self.items[self.index])
        } else {
            None
        }
    }

    /// Hands out the next entry: the one the cursor stands at first, and then
    /// those behind it.
    pub fn next(&mut self) -> (r: Option<Data<'tx>>)
        ensures
            final(self).items() == old(self).items(),
            final(self).started(),
            final(self).index() == if !old(self).started() || old(self).index() == usize::MAX {
                old(self).index()
            } else {
                old(self).index() + 1
            },
            match r {
                Some(d) => final(self).here() == Some(d@),
                None => final(self).here() is None,
            },
    {
        if self.started {
            self.index = self.index.saturating_add(1);
        } else {
            self.started = true;
        }
        self.current()
    }

    /// How many entries `next` still hands out.
    pub fn remaining(&self) -> (r: usize)
        ensures
            r == self.left().len(),
    {
        let next: usize = if self.started {
            self.index.saturating_add(1)
        } else {
            self.index
        };
        self.items.len().saturating_sub(next)
    }

    /// The entries that `next` still hands out.
    pub open spec fn left(&self) -> Seq<DataView> {
        let from = self.index() + if self.started() {
            1int
        } else {
            0int
        };
        if from <= self.items().len() {
            self.items().skip(from)
        } else {
            Seq::empty()
        }
    }

    /// The entries that are left.
    pub fn rest(&self) -> (r: Vec<Data<'tx>>)
        ensures
            views_of(r@) == self.left(),
    {
        let mut i: usize = if self.started {
            self.index.saturating_add(1)
        } else {
            self.index
        };
        let ghost from = i as int;
        let mut out: Vec<Data<'tx>> = Vec::new();
        proof {
            assert(views_of(out@) =~= Seq::<DataView>::empty());
            if from <= self.items@.len() {
                assert(views_of(out@) =~= views_of(self.items@).subrange(from, from));
            }
        }
        let len: usize = self.items.len();
        while i < self.items.len()
            invariant
                0 <= from <= i,
                len == self.items@.len(),
                from <= len ==> i <= len && views_of(out@) == views_of(self.items@).subrange(
                    from,
                    i as int,
                ),
                from > len ==> out@.len() == 0,
            decreases len - i,
        {
            let ghost was = views_of(out@);
            out.push(self.items[i]);
            i = i + 1;
            proof {
                assert(views_of(out@) =~= views_of(self.items@).subrange(from, i as int));
            }
        }
        proof {
            assert(views_of(out@) =~= self.left());
        }
        out
    }
}

/// The entries of a range of keys, handed out in order.
pub struct Range<'tx> {
    items: Vec<Data<'tx>>,
    index: usize,
}

impl<'tx> Range<'tx> {
    /// The entries that are left.
    pub closed spec fn left(&self) -> Seq<DataView> {
        if self.index <= self.items@.len() {
            views_of(self.items@).skip(self.index as int)
        } else {
            Seq::empty()
        }
    }

    pub fn new(items: Vec<Data<'tx>>) -> (r: Self)
        ensures
            r.left() == views_of(items@),
    {
        assert(views_of(items@).skip(0) =~= views_of(items@));
        Range { items, index: 0 }
    }

    /// Hands out the next entry.
    pub fn next(&mut self) -> (r: Option<Data<'tx>>)
        ensures
            match r {
                Some(d) => old(self).left().len() > 0 && d@ == old(self).left()[0]
                    && final(self).left() == old(self).left().drop_first(),
                None => old(self).left().len() == 0 && final(self).left() == old(self).left(),
            },
    {
        if self.index < self.items.len() {
            let d: Data<'tx> = self.items[self.index];
            self.index = self.index + 1;
            assert(self.left() =~= old(self).left().drop_first());
            Some(d)
        } else {
            None
        }
    }

    /// How many entries are left.
    pub fn remaining(&self) -> (r: usize)
        ensures
            r == self.left().len(),
    {
        self.items.len().saturating_sub(self.index)
    }
}

/// The key/value pairs among some entries.
pub open spec fn pairs_in(s: Seq<DataView>) -> Seq<(Seq<u8>, Seq<u8>)>
    decreases s.len(),
{
    if s.len() == 0 {
        Seq::empty()
    } else {
        match s[0] {
            DataView::KeyValue(key, value) => seq![(key, value)] + pairs_in(s.drop_first()),
            DataView::Bucket(_) => pairs_in(s.drop_first()),
        }
    }
}

/// The bucket names among some entries.
pub open spec fn buckets_in(s: Seq<DataView>) -> Seq<Seq<u8>>
    decreases s.len(),
{
    if s.len() == 0 {
        Seq::empty()
    } else {
        match s[0] {
            DataView::Bucket(name) => seq![name] + buckets_in(s.drop_first()),
            DataView::KeyValue(_, _) => buckets_in(s.drop_first()),
        }
    }
}

/// The key/value pairs of a traversal.
pub struct KVPairs<'tx> {
    inner: Range<'tx>,
}

impl<'tx> KVPairs<'tx> {
    /// The pairs that are left.
    pub closed spec fn left(&self) -> Seq<(Seq<u8>, Seq<u8>)> {
        pairs_in(self.inner.left())
    }

    /// Hands out the next pair.
    pub fn next(&mut self) -> (r: Option<KVPair<'tx>>)
        ensures
            match r {
                Some(pair) => old(self).left().len() > 0 && pair@ == old(self).left()[0]
                    && final(self).left() == old(self).left().drop_first(),
                None => old(self).left().len() == 0 && final(self).left() == old(self).left(),
            },
    {
        let ghost all = self.left();
        loop
            invariant
                self.left() == all,
                all == old(self).left(),
            decreases self.inner.left().len(),
        {
            match self.inner.next() {
                None => return None,
                Some(Data::KeyValue(pair)) => {
                    assert(self.left() =~= all.drop_first());
                    return Some(pair);
                },
                Some(Data::Bucket(_)) => {},
            }
        }
    }
}

/// The bucket names of a traversal.
pub struct Buckets<'tx> {
    inner: Range<'tx>,
}

impl<'tx> Buckets<'tx> {
    /// The names that are left.
    pub closed spec fn left(&self) -> Seq<Seq<u8>> {
        buckets_in(self.inner.left())
    }

    /// Hands out the next name.
    pub fn next(&mut self) -> (r: Option<BucketName<'tx>>)
        ensures
            match r {
                Some(name) => old(self).left().len() > 0 && name@ == old(self).left()[0]
                    && final(self).left() == old(self).left().drop_first(),
                None => old(self).left().len() == 0 && final(self).left() == old(self).left(),
            },
    {
        let ghost all = self.left();
        loop
            invariant
                self.left() == all,
                all == old(self).left(),
            decreases self.inner.left().len(),
        {
            match self.inner.next() {
                None => return None,
                Some(Data::Bucket(name)) => {
                    assert(self.left() =~= all.drop_first());
                    return Some(name);
                },
                Some(Data::KeyValue(_)) => {},
            }
        }
    }
}

/// Traversals whose key/value pairs can be picked out.
pub trait ToKVPairs<'tx>: Sized {
    /// The entries that are left.
    spec fn entries(&self) -> Seq<DataView>;

    fn to_kv_pairs(self) -> (r: KVPairs<'tx>)
        ensures
            r.left() == pairs_in(self.entries()),
    ;
}

/// Traversals whose bucket names can be picked out.
pub trait ToBuckets<'tx>: Sized {
    /// The entries that are left.
    spec fn contents(&self) -> Seq<DataView>;

    fn to_buckets(self) -> (r: Buckets<'tx>)
        ensures
            r.left() == buckets_in(self.contents()),
    ;
}

impl<'tx> ToKVPairs<'tx> for Cursor<'tx> {
    open spec fn entries(&self) -> Seq<DataView> {
        self.left()
    }

    fn to_kv_pairs(self) -> (r: KVPairs<'tx>) {
        KVPairs { inner: Range::new(self.rest()) }
    }
}

impl<'tx> ToKVPairs<'tx> for Range<'tx> {
    open spec fn entries(&self) -> Seq<DataView> {
        self.left()
    }

    fn to_kv_pairs(self) -> (r: KVPairs<'tx>) {
        KVPairs { inner: self }
    }
}

impl<'tx> ToBuckets<'tx> for Cursor<'tx> {
    open spec fn contents(&self) -> Seq<DataView> {
        self.left()
    }

    fn to_buckets(self) -> (r: Buckets<'tx>) {
        Buckets { inner: Range::new(self.rest()) }
    }
}

impl<'tx> ToBuckets<'tx> for Range<'tx> {
    open spec fn contents(&self) -> Seq<DataView> {
        self.left()
    }

    fn to_buckets(self) -> (r: Buckets<'tx>) {
        Buckets { inner: self }
    }
}

} // verus!
