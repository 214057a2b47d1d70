//! Moving over the entries of a bucket, in either direction.

use crate::api::bucket::Bucket;
use crate::api::tree::{self, Item, Leaf, Node, Tree};
use crate::bytes::{self, less};
use crate::data::{BucketName, Data, DataView, KVPair};
use crate::db::read::{self, in_bounds, Bound};
use vstd::prelude::*;

verus! {

/// An entry of a bucket as data.
pub open spec fn data_of(entry: (Seq<u8>, Item)) -> DataView {
    match entry.1 {
        Item::Value(value) => DataView::KeyValue(entry.0, value),
        Item::Bucket(_) => DataView::Bucket(entry.0),
    }
}

/// A bucket's entries as data, in key order.
pub open spec fn data_in(t: Tree) -> Seq<DataView> {
    tree::listing(t).map_values(|e: (Seq<u8>, Item)| data_of(e))
}

/// How many entries have a smaller key.
pub open spec fn rank(l: Seq<DataView>, key: Seq<u8>) -> nat
    decreases l.len(),
{
    if l.len() == 0 {
        0
    } else {
        rank(l.drop_last(), key) + if bytes::lex_lt(l.last().key(), key) {
            1nat
        } else {
            0
        }
    }
}

pub proof fn lemma_rank(l: Seq<DataView>, key: Seq<u8>, i: int)
    requires
        0 <= i <= l.len(),
        forall|j: int| 0 <= j < i ==> bytes::lex_lt((#[trigger] l[j]).key(), key),
        forall|j: int| i <= j < l.len() ==> !bytes::lex_lt((#[trigger] l[j]).key(), key),
    ensures
        rank(l, key) == i,
    decreases l.len(),
{
    if l.len() > 0 {
        let front = l.drop_last();
        assert(l[l.len() - 1] == l.last());
        if i == l.len() {
            lemma_rank(front, key, i - 1);
        } else {
            lemma_rank(front, key, i);
        }
    }
}

/// Where a cursor is: at an entry, or nowhere yet; and whether it has moved on
/// or back since it was placed there.
pub struct CursorView {
    pub pos: Option<int>,
    pub next_called: bool,
    pub previous_called: bool,
}

/// A cursor that has not been placed.
pub open spec fn unplaced() -> CursorView {
    CursorView { pos: None, next_called: false, previous_called: false }
}

/// A cursor that was placed at an entry.
pub open spec fn placed(pos: int) -> CursorView {
    CursorView { pos: Some(pos), next_called: false, previous_called: false }
}

/// The entry at a cursor.
pub open spec fn current(l: Seq<DataView>, c: CursorView) -> Option<DataView> {
    match c.pos {
        Some(p) => if 0 <= p < l.len() {
            Some(l[p])
        } else {
            None
        },
        None => None,
    }
}

/// Whether some entry has the key.
pub open spec fn holds_key(l: Seq<DataView>, key: Seq<u8>) -> bool {
    exists|i: int| 0 <= i < l.len() && (#[trigger] l[i]).key() == key
}

/// Placing a cursor at a key; where there is none, at the entry just before,
/// or at the first.
pub open spec fn sought(l: Seq<DataView>, key: Seq<u8>) -> (bool, CursorView) {
    let r = rank(l, key) as int;
    if holds_key(l, key) {
        (true, placed(r))
    } else if r > 0 {
        (false, placed(r - 1))
    } else {
        (false, placed(0))
    }
}

/// Moving a cursor on: one that has moved on before goes to the next entry,
/// any other stays where it was placed, or starts at the first.
pub open spec fn advanced(l: Seq<DataView>, c: CursorView) -> (Option<DataView>, CursorView) {
    let stay = CursorView { previous_called: false, ..c };
    match c.pos {
        None => {
            let at = CursorView { pos: Some(0), next_called: true, previous_called: false };
            (current(l, at), at)
        },
        Some(p) => if !c.next_called {
            let at = CursorView { next_called: true, ..stay };
            (current(l, at), at)
        } else if p + 1 >= l.len() {
            (None, stay)
        } else {
            let at = CursorView { pos: Some(p + 1), ..stay };
            (current(l, at), at)
        },
    }
}

/// Moving a cursor back: one that has moved back before goes to the entry
/// before, any other stays where it was placed, or starts at the last. Before
/// the first entry it is nowhere again.
pub open spec fn retreated(l: Seq<DataView>, c: CursorView) -> (Option<DataView>, CursorView) {
    match c.pos {
        None => {
            let at = CursorView {
                pos: if l.len() == 0 {
                    None
                } else {
                    Some(l.len() - 1)
                },
                next_called: false,
                previous_called: true,
            };
            (current(l, at), at)
        },
        Some(p) => if !c.previous_called {
            let at = CursorView { next_called: false, previous_called: true, ..c };
            (current(l, at), at)
        } else if p == 0 {
            (None, CursorView { pos: None, ..c })
        } else {
            let at = CursorView { pos: Some(p - 1), next_called: false, previous_called: true };
            (current(l, at), at)
        },
    }
}

/// An iterator over a bucket, sorted by key.
pub struct Cursor<'a> {
    node: &'a Node,
    pos: Option<usize>,
    next_called: bool,
    previous_called: bool,
}

impl<'a> Cursor<'a> {
    /// Whether the bucket is in order.
    pub closed spec fn wf(&self) -> bool {
        self.node.wf()
    }

    /// What the cursor moves over.
    pub closed spec fn list(&self) -> Seq<DataView> {
        data_in(self.node@)
    }

    /// Where the cursor is.
    pub closed spec fn state(&self) -> CursorView {
        CursorView {
            pos: match self.pos {
                Some(p) => Some(p as int),
                None => None,
            },
            next_called: self.next_called,
            previous_called: self.previous_called,
        }
    }

    /// What is listed is what the bucket's entries stand for.
    proof fn lemma_list(&self)
        requires
            self.wf(),
        ensures
            self.list().len() == self.node.leaves().len(),
            forall|i: int|
                0 <= i < self.list().len() ==> (#[trigger] self.list()[i]) == data_of(
                    (self.node.leaves()[i].0, self.node.leaves()[i].1.item()),
                ),
            forall|i: int|
                0 <= i < self.list().len() ==> (#[trigger] self.list()[i]).key()
                    == self.node.leaves()[i].0,
            forall|i: int, j: int|
                0 <= i < j < self.list().len() ==> bytes::lex_lt(
                    (#[trigger] self.list()[i]).key(),
                    (#[trigger] self.list()[j]).key(),
                ),
    {
        self.node.lemma_leaves();
        let l = self.list();
        let leaves = self.node.leaves();
        assert forall|i: int| 0 <= i < l.len() implies (#[trigger] l[i]) == data_of(
            (leaves[i].0, leaves[i].1.item()),
        ) && l[i].key() == leaves[i].0 by {
            assert(tree::listing(self.node@)[i] == (leaves[i].0, leaves[i].1.item()));
        }
        assert forall|i: int, j: int| 0 <= i < j < l.len() implies bytes::lex_lt(
            (#[trigger] l[i]).key(),
            (#[trigger] l[j]).key(),
        ) by {
            assert(bytes::lex_lt(leaves[i].0, leaves[j].0));
        }
    }

    /// A cursor over a bucket, not placed yet.
    pub fn new(node: &'a Node) -> (r: Self)
        requires
            node.wf(),
        ensures
            r.wf(),
            r.list() == data_in(node@),
            r.state() == unplaced(),
    {
        Cursor { node, pos: None, next_called: false, previous_called: false }
    }

    /// The entry at `i` as data.
    fn data_at(&self, i: usize) -> (r: Data<'a>)
        requires
            self.wf(),
            i < self.list().len(),
        ensures
            r@ == self.list()[i as int],
    {
        proof {
            self.lemma_list();
        }
        let node: &'a Node = self.node;
        let leaf: &'a Leaf = node.leaf_at(i);
        proof {
            leaf.lemma_item();
        }
        match leaf {
            Leaf::Kv(value) => Data::KeyValue(KVPair::new(node.key_at(i), value)),
            Leaf::Bucket(_) => Data::Bucket(BucketName::new(node.key_at(i))),
        }
    }

    /// Moves the cursor to the given key. If the key does not exist, the cursor
    /// stops "just before" where the key would be. Returns whether or not the
    /// key exists in the bucket.
    pub fn seek(&mut self, key: &[u8]) -> (r: bool)
        requires
            old(self).wf(),
        ensures
            final(self).wf(),
            final(self).list() == old(self).list(),
            (r, final(self).state()) == sought(old(self).list(), key@),
    {
        proof {
            self.lemma_list();
        }
        let ghost l = self.list();
        let ghost leaves = self.node.leaves();
        self.next_called = false;
        self.previous_called = false;
        match self.node.find(key) {
            Ok(i) => {
                proof {
                    assert(l[i as int].key() == key@);
                    assert forall|j: int| 0 <= j < i implies bytes::lex_lt(
                        (#[trigger] l[j]).key(),
                        key@,
                    ) by {
                        assert(bytes::lex_lt(l[j].key(), l[i as int].key()));
                    }
                    assert forall|j: int| i <= j < l.len() implies !bytes::lex_lt(
                        (#[trigger] l[j]).key(),
                        key@,
                    ) by {
                        bytes::lemma_lex_irreflexive(key@);
                        if j > i {
                            assert(bytes::lex_lt(l[i as int].key(), l[j].key()));
                            if bytes::lex_lt(l[j].key(), key@) {
                                bytes::lemma_lex_transitive(l[j].key(), key@, l[j].key());
                                bytes::lemma_lex_irreflexive(l[j].key());
                            }
                        }
                    }
                    lemma_rank(l, key@, i as int);
                }
                self.pos = Some(i);
                true
            },
            Err(i) => {
                proof {
                    assert forall|j: int| 0 <= j < i implies bytes::lex_lt(
                        (#[trigger] l[j]).key(),
                        key@,
                    ) by {
                        assert(bytes::lex_lt(leaves[j].0, key@));
                    }
                    assert forall|j: int| i <= j < l.len() implies !bytes::lex_lt(
                        (#[trigger] l[j]).key(),
                        key@,
                    ) by {
                        assert(bytes::lex_lt(key@, leaves[j].0));
                        if bytes::lex_lt(l[j].key(), key@) {
                            bytes::lemma_lex_transitive(l[j].key(), key@, l[j].key());
                            bytes::lemma_lex_irreflexive(l[j].key());
                        }
                    }
                    lemma_rank(l, key@, i as int);
                    assert(!holds_key(l, key@)) by {
                        if holds_key(l, key@) {
                            let j = choose|j: int| 0 <= j < l.len() && (#[trigger] l[j]).key()
                                == key@;
                            bytes::lemma_lex_irreflexive(key@);
                            if j < i {
                                assert(bytes::lex_lt(leaves[j].0, key@));
                            } else {
                                assert(bytes::lex_lt(key@, leaves[j].0));
                            }
                        }
                    }
                }
                self.pos = Some(
                    if i > 0 {
                        i - 1
                    } else {
                        0
                    },
                );
                false
            },
        }
    }

    /// Returns the data at the cursor's current position.
    pub fn current(&self) -> (r: Option<Data<'a>>)
        requires
            self.wf(),
        ensures
            match r {
                Some(data) => current(self.list(), self.state()) == Some(data@),
                None => current(self.list(), self.state()) is None,
            },
    {
        proof {
            self.lemma_list();
        }
        match self.pos {
            Some(p) => if p < self.node.len() {
                Some(self.data_at(p))
            } else {
                None
            },
            None => None,
        }
    }

    /// Positions the cursor at the greatest key in the bucket.
    pub fn seek_last(&mut self)
        requires
            old(self).wf(),
        ensures
            final(self).wf(),
            final(self).list() == old(self).list(),
            final(self).state() == (if old(self).list().len() == 0 {
                unplaced()
            } else {
                placed(old(self).list().len() - 1)
            }),
    {
        proof {
            self.lemma_list();
        }
        let n: usize = self.node.len();
        self.next_called = false;
        self.previous_called = false;
        self.pos = if n == 0 {
            None
        } else {
            Some(n - 1)
        };
    }

    /// Returns the current item and then traverses toward smaller keys.
    pub fn previous(&mut self) -> (r: Option<Data<'a>>)
        requires
            old(self).wf(),
        ensures
            final(self).wf(),
            final(self).list() == old(self).list(),
            ({
                let (want, after) = retreated(old(self).list(), old(self).state());
                &&& final(self).state() == after
                &&& match r {
                    Some(data) => want == Some(data@),
                    None => want is None,
                }
            }),
    {
        proof {
            self.lemma_list();
        }
        match self.pos {
            None => self.seek_last(),
            Some(p) => if self.previous_called {
                if p == 0 {
                    self.pos = None;
                    return None;
                }
                self.pos = Some(p - 1);
            },
        }
        self.previous_called = true;
        self.next_called = false;
        self.current()
    }

    /// Returns the next item, toward larger keys; the first is the one that the
    /// cursor was placed at.
    pub fn next(&mut self) -> (r: Option<Data<'a>>)
        requires
            old(self).wf(),
        ensures
            final(self).wf(),
            final(self).list() == old(self).list(),
            ({
                let (want, after) = advanced(old(self).list(), old(self).state());
                &&& final(self).state() == after
                &&& match r {
                    Some(data) => want == Some(data@),
                    None => want is None,
                }
            }),
    {
        proof {
            self.lemma_list();
        }
        self.previous_called = false;
        match self.pos {
            None => {
                self.pos = Some(0);
            },
            Some(p) => if self.next_called {
                let n: usize = self.node.len();
                if n == 0 || p >= n - 1 {
                    return None;
                }
                self.pos = Some(p + 1);
            },
        }
        self.next_called = true;
        self.current()
    }
}

/// What a cursor still returns when it is moved on again and again.
pub open spec fn ahead(l: Seq<DataView>, c: CursorView) -> Seq<DataView> {
    match c.pos {
        None => l,
        Some(p) => if c.next_called {
            l.skip(if p + 1 <= l.len() {
                p + 1
            } else {
                l.len() as int
            })
        } else {
            l.skip(if p <= l.len() {
                p
            } else {
                l.len() as int
            })
        },
    }
}

/// Moved on again and again, a cursor returns every entry that is ahead of it,
/// once and in key order, and then nothing.
pub proof fn law_cursor_returns_what_is_ahead(l: Seq<DataView>, c: CursorView)
    requires
        c.pos matches Some(p) ==> 0 <= p && (p < l.len() || l.len() == 0),
    ensures
        ({
            let (r, after) = advanced(l, c);
            if ahead(l, c).len() == 0 {
                r is None && ahead(l, after).len() == 0
            } else {
                r == Some(ahead(l, c)[0]) && ahead(l, after) == ahead(l, c).drop_first()
            }
        }),
{
    let (r, after) = advanced(l, c);
    if ahead(l, c).len() > 0 {
        assert(ahead(l, after) =~= ahead(l, c).drop_first());
    }
}

/// What a cursor still returns when it is moved back again and again.
pub open spec fn behind(l: Seq<DataView>, c: CursorView) -> Seq<DataView> {
    match c.pos {
        None => l,
        Some(p) => if c.previous_called {
            l.take(p)
        } else {
            l.take(p + 1)
        },
    }
}

/// Moved back again and again, a cursor returns every entry that is behind it,
/// once and in reverse key order, and then nothing for once.
pub proof fn law_cursor_returns_what_is_behind(l: Seq<DataView>, c: CursorView)
    requires
        c.pos matches Some(p) ==> 0 <= p < l.len(),
    ensures
        ({
            let (r, after) = retreated(l, c);
            if behind(l, c).len() == 0 {
                r is None && after.pos is None
            } else {
                r == Some(behind(l, c).last()) && behind(l, after) == behind(l, c).drop_last()
            }
        }),
{
    let (r, after) = retreated(l, c);
    if behind(l, c).len() > 0 {
        assert(behind(l, after) =~= behind(l, c).drop_last());
    }
}

/// Where a range begins: at the first entry that its start bound admits. The
/// entry that the bound's key leads to is passed over if it lies before the key,
/// or at a key that is excluded.
pub open spec fn range_begins(l: Seq<DataView>, key: Seq<u8>, excluded: bool) -> CursorView {
    let (exists, at) = sought(l, key);
    match current(l, at) {
        Some(data) => if (exists && excluded) || (!exists && bytes::lex_lt(data.key(), key)) {
            advanced(l, at).1
        } else {
            at
        },
        None => at,
    }
}

/// What a range returns next: entries that its start bound does not admit are
/// passed over at first; one beyond its end is not returned.
pub open spec fn range_step(
    l: Seq<DataView>,
    c: CursorView,
    start: read::BoundView,
    end: read::BoundView,
) -> (Option<DataView>, CursorView) {
    let from = if c.next_called {
        c
    } else {
        match start {
            read::BoundView::Included(key) => range_begins(l, key, false),
            read::BoundView::Excluded(key) => range_begins(l, key, true),
            read::BoundView::Unbounded => c,
        }
    };
    let (r, after) = advanced(l, from);
    match r {
        Some(data) => if read::within_bounds(read::BoundView::Unbounded, end, data.key()) {
            (Some(data), after)
        } else {
            (None, after)
        },
        None => (None, after),
    }
}

/// A bounded iterator over the data in a bucket.
pub struct Range<'a, 'r> {
    pub c: Cursor<'a>,
    pub start: Bound<'r>,
    pub end: Bound<'r>,
}

impl<'a, 'r> Range<'a, 'r> {
    /// Places the cursor where the range begins.
    fn begin(&mut self, key: &[u8], excluded: bool)
        requires
            old(self).c.wf(),
        ensures
            final(self).c.wf(),
            final(self).c.list() == old(self).c.list(),
            final(self).start == old(self).start,
            final(self).end == old(self).end,
            final(self).c.state() == range_begins(old(self).c.list(), key@, excluded),
    {
        let exists: bool = self.c.seek(key);
        let passed: bool = match self.c.current() {
            Some(data) => if exists {
                excluded
            } else {
                less(data.key(), key)
            },
            None => false,
        };
        if passed {
            let _before: Option<Data<'a>> = self.c.next();
        }
    }

    /// The next entry of the range.
    pub fn next(&mut self) -> (r: Option<Data<'a>>)
        requires
            old(self).c.wf(),
        ensures
            final(self).c.wf(),
            final(self).c.list() == old(self).c.list(),
            final(self).start == old(self).start,
            final(self).end == old(self).end,
            ({
                let (want, after) = range_step(
                    old(self).c.list(),
                    old(self).c.state(),
                    old(self).start@,
                    old(self).end@,
                );
                &&& final(self).c.state() == after
                &&& match r {
                    Some(data) => want == Some(data@),
                    None => want is None,
                }
            }),
    {
        if !self.c.next_called {
            match self.start {
                Bound::Included(key) => self.begin(key, false),
                Bound::Excluded(key) => self.begin(key, true),
                Bound::Unbounded => {},
            }
        }
        match self.c.next() {
            Some(data) => if in_bounds(Bound::Unbounded, self.end, data.key()) {
                Some(data)
            } else {
                None
            },
            None => None,
        }
    }
}

pub proof fn lemma_rank_bounds(l: Seq<DataView>, key: Seq<u8>)
    requires
        forall|i: int, j: int|
            0 <= i < j < l.len() ==> bytes::lex_lt((#[trigger] l[i]).key(), (#[trigger] l[j]).key()),
    ensures
        rank(l, key) <= l.len(),
        forall|j: int| 0 <= j < rank(l, key) ==> bytes::lex_lt((#[trigger] l[j]).key(), key),
        forall|j: int| rank(l, key) <= j < l.len() ==> !bytes::lex_lt((#[trigger] l[j]).key(), key),
    decreases l.len(),
{
    if l.len() > 0 {
        let front = l.drop_last();
        assert forall|i: int, j: int| 0 <= i < j < front.len() implies bytes::lex_lt(
            (#[trigger] front[i]).key(),
            (#[trigger] front[j]).key(),
        ) by {
            assert(bytes::lex_lt(l[i].key(), l[j].key()));
        }
        lemma_rank_bounds(front, key);
        let n = l.len() - 1;
        if bytes::lex_lt(l[n].key(), key) {
            assert(rank(front, key) == n) by {
                if rank(front, key) < n {
                    let r = rank(front, key) as int;
                    assert(!bytes::lex_lt(front[r].key(), key));
                    assert(bytes::lex_lt(l[r].key(), l[n].key()));
                    bytes::lemma_lex_transitive(l[r].key(), l[n].key(), key);
                }
            }
        }
        assert forall|j: int| 0 <= j < rank(l, key) implies bytes::lex_lt(
            (#[trigger] l[j]).key(),
            key,
        ) by {
            if j < n {
                assert(front[j] == l[j]);
            }
        }
        assert forall|j: int| rank(l, key) <= j < l.len() implies !bytes::lex_lt(
            (#[trigger] l[j]).key(),
            key,
        ) by {
            if j < n {
                assert(front[j] == l[j]);
            }
        }
    }
}

/// Whether a list is in key order.
pub open spec fn in_order(l: Seq<DataView>) -> bool {
    forall|i: int, j: int|
        0 <= i < j < l.len() ==> bytes::lex_lt((#[trigger] l[i]).key(), (#[trigger] l[j]).key())
}

/// A range that begins at a key starts with the first entry whose key is not
/// smaller, whether or not the key exists; one that begins behind a key starts
/// with the first entry whose key is larger.
pub proof fn law_range_starts_at_its_bound(
    l: Seq<DataView>,
    c: CursorView,
    start: Seq<u8>,
    excluded: bool,
)
    requires
        in_order(l),
        !c.next_called,
    ensures
        ({
            let bound = if excluded {
                read::BoundView::Excluded(start)
            } else {
                read::BoundView::Included(start)
            };
            let (r, after) = range_step(l, c, bound, read::BoundView::Unbounded);
            match r {
                Some(data) => exists|k: int|
                    0 <= k < l.len() && #[trigger] l[k] == data && after.pos == Some(k)
                        && read::within_bounds(bound, read::BoundView::Unbounded, data.key())
                        && forall|j: int|
                        0 <= j < k ==> !read::within_bounds(
                            bound,
                            read::BoundView::Unbounded,
                            (#[trigger] l[j]).key(),
                        ),
                None => forall|j: int|
                    0 <= j < l.len() ==> !read::within_bounds(
                        bound,
                        read::BoundView::Unbounded,
                        (#[trigger] l[j]).key(),
                    ),
            }
        }),
{
    let bound = if excluded {
        read::BoundView::Excluded(start)
    } else {
        read::BoundView::Included(start)
    };
    lemma_rank_bounds(l, start);
    bytes::lemma_lex_irreflexive(start);
    let k = rank(l, start) as int;
    if holds_key(l, start) {
        let i = choose|i: int| 0 <= i < l.len() && (#[trigger] l[i]).key() == start;
        assert(k <= i);
        if k < i {
            assert(bytes::lex_lt(l[k].key(), l[i].key()));
        }
        assert(k == i);
    }
    let first = if holds_key(l, start) && excluded {
        k + 1
    } else {
        k
    };
    assert forall|j: int| 0 <= j < l.len() implies read::within_bounds(
        bound,
        read::BoundView::Unbounded,
        (#[trigger] l[j]).key(),
    ) == (j >= first) by {
        bytes::lemma_lex_total(l[j].key(), start);
        if j < k {
            assert(bytes::lex_lt(l[j].key(), start));
        } else if j > k {
            assert(bytes::lex_lt(l[k].key(), l[j].key()));
        }
    }
    let (r, after) = range_step(l, c, bound, read::BoundView::Unbounded);
    if first < l.len() {
        assert(r == Some(l[first]));
        assert(after.pos == Some(first));
    } else {
        assert(r is None);
    }
}

/// An iterator over a bucket's sub-buckets.
pub struct Buckets<I> {
    pub i: I,
}

/// An iterator over a bucket's key / value pairs.
pub struct KVPairs<I> {
    pub i: I,
}

/// The first of the entries ahead that is a key/value pair.
pub open spec fn first_pair(s: Seq<DataView>) -> Option<int>
    decreases s.len(),
{
    if s.len() == 0 {
        None
    } else if s[0] is KeyValue {
        Some(0)
    } else {
        match first_pair(s.drop_first()) {
            Some(i) => Some(i + 1),
            None => None,
        }
    }
}

/// The first of the entries ahead that is a bucket.
pub open spec fn first_bucket(s: Seq<DataView>) -> Option<int>
    decreases s.len(),
{
    if s.len() == 0 {
        None
    } else if s[0] is Bucket {
        Some(0)
    } else {
        match first_bucket(s.drop_first()) {
            Some(i) => Some(i + 1),
            None => None,
        }
    }
}

/// Whether a cursor stands at an entry, if it stands anywhere.
pub open spec fn sound(l: Seq<DataView>, c: CursorView) -> bool {
    c.pos matches Some(p) ==> 0 <= p && (p < l.len() || l.len() == 0)
}

impl<'a> KVPairs<Cursor<'a>> {
    /// The next key/value pair ahead; what lies before it is passed over.
    #[verifier::rlimit(30)]
    #[verifier::spinoff_prover]
    pub fn next(&mut self) -> (r: Option<KVPair<'a>>)
        requires
            old(self).i.wf(),
            sound(old(self).i.list(), old(self).i.state()),
        ensures
            final(self).i.wf(),
            final(self).i.list() == old(self).i.list(),
            sound(final(self).i.list(), final(self).i.state()),
            ({
                let s = ahead(old(self).i.list(), old(self).i.state());
                let t = ahead(final(self).i.list(), final(self).i.state());
                match (r, first_pair(s)) {
                    (Some(pair), Some(i)) => s[i] == DataView::KeyValue(pair@.0, pair@.1) && t
                        == s.skip(i + 1),
                    (None, None) => t.len() == 0,
                    _ => false,
                }
            }),
    {
        let ghost l = self.i.list();
        let ghost s = ahead(l, self.i.state());
        let ghost mut k: int = 0;
        assert(s.skip(0) =~= s);
        loop
            invariant
                self.i.wf(),
                self.i.list() == l,
                l == old(self).i.list(),
                s == ahead(old(self).i.list(), old(self).i.state()),
                sound(l, self.i.state()),
                0 <= k <= s.len(),
                ahead(l, self.i.state()) == s.skip(k),
                first_pair(s) == match first_pair(s.skip(k)) {
                    Some(i) => Some(i + k),
                    None => None,
                },
            decreases s.len() - k,
        {
            proof {
                law_cursor_returns_what_is_ahead(l, self.i.state());
                lemma_moves_soundly(l, self.i.state());
            }
            match self.i.next() {
                Some(Data::KeyValue(pair)) => {
                    assert(s.skip(k)[0] == s[k]);
                    assert(s.skip(k).drop_first() =~= s.skip(k + 1));
                    return Some(pair);
                },
                Some(Data::Bucket(_)) => {
                    proof {
                        assert(s.skip(k)[0] == s[k]);
                        assert(s.skip(k).drop_first() =~= s.skip(k + 1));
                        k = k + 1;
                    }
                },
                None => return None,
            }
        }
    }
}

proof fn lemma_moves_soundly(l: Seq<DataView>, c: CursorView)
    requires
        sound(l, c),
    ensures
        sound(l, advanced(l, c).1),
{
}

impl<'a> Buckets<Cursor<'a>> {
    /// The next nested bucket ahead, by its name; what lies before it is passed
    /// over.
    #[verifier::rlimit(30)]
    #[verifier::spinoff_prover]
    pub fn next(&mut self) -> (r: Option<BucketName<'a>>)
        requires
            old(self).i.wf(),
            sound(old(self).i.list(), old(self).i.state()),
        ensures
            final(self).i.wf(),
            final(self).i.list() == old(self).i.list(),
            sound(final(self).i.list(), final(self).i.state()),
            ({
                let s = ahead(old(self).i.list(), old(self).i.state());
                let t = ahead(final(self).i.list(), final(self).i.state());
                match (r, first_bucket(s)) {
                    (Some(name), Some(i)) => s[i] == DataView::Bucket(name@) && t == s.skip(i + 1),
                    (None, None) => t.len() == 0,
                    _ => false,
                }
            }),
    {
        let ghost l = self.i.list();
        let ghost s = ahead(l, self.i.state());
        let ghost mut k: int = 0;
        assert(s.skip(0) =~= s);
        loop
            invariant
                self.i.wf(),
                self.i.list() == l,
                l == old(self).i.list(),
                s == ahead(old(self).i.list(), old(self).i.state()),
                sound(l, self.i.state()),
                0 <= k <= s.len(),
                ahead(l, self.i.state()) == s.skip(k),
                first_bucket(s) == match first_bucket(s.skip(k)) {
                    Some(i) => Some(i + k),
                    None => None,
                },
            decreases s.len() - k,
        {
            proof {
                law_cursor_returns_what_is_ahead(l, self.i.state());
                lemma_moves_soundly(l, self.i.state());
            }
            match self.i.next() {
                Some(Data::Bucket(name)) => {
                    assert(s.skip(k)[0] == s[k]);
                    assert(s.skip(k).drop_first() =~= s.skip(k + 1));
                    return Some(name);
                },
                Some(Data::KeyValue(_)) => {
                    proof {
                        assert(s.skip(k)[0] == s[k]);
                        assert(s.skip(k).drop_first() =~= s.skip(k + 1));
                        k = k + 1;
                    }
                },
                None => return None,
            }
        }
    }
}

/// What can be moved over to find nested buckets.
pub trait ToBuckets: Sized {
    fn to_buckets(self) -> (r: Buckets<Self>)
        ensures
            r.i == self,
    ;
}

/// What can be moved over to find key / value pairs.
pub trait ToKVPairs: Sized {
    fn to_kv_pairs(self) -> (r: KVPairs<Self>)
        ensures
            r.i == self,
    ;
}

impl<'a> ToBuckets for Cursor<'a> {
    fn to_buckets(self) -> (r: Buckets<Self>) {
        Buckets { i: self }
    }
}

impl<'a> ToKVPairs for Cursor<'a> {
    fn to_kv_pairs(self) -> (r: KVPairs<Self>) {
        KVPairs { i: self }
    }
}

impl<'a, 'r> ToBuckets for Range<'a, 'r> {
    fn to_buckets(self) -> (r: Buckets<Self>) {
        Buckets { i: self }
    }
}

impl<'a, 'r> ToKVPairs for Range<'a, 'r> {
    fn to_kv_pairs(self) -> (r: KVPairs<Self>) {
        KVPairs { i: self }
    }
}

/// How many entries a range can still come upon.
pub open spec fn range_left(l: Seq<DataView>, c: CursorView) -> nat {
    if c.next_called {
        ahead(l, c).len()
    } else {
        l.len() + 1
    }
}

/// A range that came upon an entry has fewer left.
pub proof fn lemma_range_step(
    l: Seq<DataView>,
    c: CursorView,
    start: read::BoundView,
    end: read::BoundView,
)
    requires
        in_order(l),
        sound(l, c),
    ensures
        ({
            let (r, after) = range_step(l, c, start, end);
            &&& sound(l, after)
            &&& after.next_called
            &&& r is Some ==> range_left(l, after) < range_left(l, c)
        }),
{
    if !c.next_called && !(start is Unbounded) {
        let key = match start {
            read::BoundView::Included(key) => key,
            read::BoundView::Excluded(key) => key,
            read::BoundView::Unbounded => Seq::empty(),
        };
        lemma_rank_bounds(l, key);
        let at = sought(l, key).1;
        if holds_key(l, key) {
            let i = choose|i: int| 0 <= i < l.len() && (#[trigger] l[i]).key() == key;
            bytes::lemma_lex_irreflexive(key);
            assert(rank(l, key) <= i);
        }
        assert(sound(l, at));
        lemma_moves_soundly(l, at);
        law_cursor_returns_what_is_ahead(l, at);
        let on = advanced(l, at).1;
        lemma_moves_soundly(l, on);
        law_cursor_returns_what_is_ahead(l, on);
    } else {
        lemma_moves_soundly(l, c);
        law_cursor_returns_what_is_ahead(l, c);
    }
}

/// What a range comes upon next among buckets, or among pairs: the others are
/// passed over.
pub open spec fn range_pick(
    l: Seq<DataView>,
    c: CursorView,
    start: read::BoundView,
    end: read::BoundView,
    bucket: bool,
) -> (Option<DataView>, CursorView)
    decreases range_left(l, c),
    when in_order(l) && sound(l, c)
{
    proof {
        lemma_range_step(l, c, start, end);
    }
    match range_step(l, c, start, end) {
        (None, after) => (None, after),
        (Some(data), after) => if (data is Bucket) == bucket {
            (Some(data), after)
        } else {
            range_pick(l, after, start, end, bucket)
        },
    }
}

impl<'a, 'r> Range<'a, 'r> {
    /// The next bucket of the range, or the next pair.
    fn pick(&mut self, bucket: bool) -> (r: Option<Data<'a>>)
        requires
            old(self).c.wf(),
            in_order(old(self).c.list()),
            sound(old(self).c.list(), old(self).c.state()),
        ensures
            final(self).c.wf(),
            final(self).c.list() == old(self).c.list(),
            sound(final(self).c.list(), final(self).c.state()),
            final(self).start == old(self).start,
            final(self).end == old(self).end,
            ({
                let (want, after) = range_pick(
                    old(self).c.list(),
                    old(self).c.state(),
                    old(self).start@,
                    old(self).end@,
                    bucket,
                );
                &&& final(self).c.state() == after
                &&& match r {
                    Some(data) => want == Some(data@) && (data@ is Bucket) == bucket,
                    None => want is None,
                }
            }),
    {
        let ghost l = self.c.list();
        let ghost whole = range_pick(l, self.c.state(), self.start@, self.end@, bucket);
        loop
            invariant
                self.c.wf(),
                self.c.list() == l,
                l == old(self).c.list(),
                in_order(l),
                sound(l, self.c.state()),
                self.start == old(self).start,
                self.end == old(self).end,
                whole == range_pick(
                    old(self).c.list(),
                    old(self).c.state(),
                    old(self).start@,
                    old(self).end@,
                    bucket,
                ),
                whole == range_pick(l, self.c.state(), self.start@, self.end@, bucket),
            decreases range_left(l, self.c.state()),
        {
            proof {
                lemma_range_step(l, self.c.state(), self.start@, self.end@);
            }
            match self.next() {
                None => return None,
                Some(data) => {
                    let found: bool = match data {
                        Data::Bucket(_) => bucket,
                        Data::KeyValue(_) => !bucket,
                    };
                    if found {
                        return Some(data);
                    }
                },
            }
        }
    }
}

impl<'a, 'r> KVPairs<Range<'a, 'r>> {
    /// The next key/value pair of the range.
    pub fn next(&mut self) -> (r: Option<KVPair<'a>>)
        requires
            old(self).i.c.wf(),
            in_order(old(self).i.c.list()),
            sound(old(self).i.c.list(), old(self).i.c.state()),
        ensures
            final(self).i.c.wf(),
            final(self).i.c.list() == old(self).i.c.list(),
            sound(final(self).i.c.list(), final(self).i.c.state()),
            final(self).i.start == old(self).i.start,
            final(self).i.end == old(self).i.end,
            ({
                let (want, after) = range_pick(
                    old(self).i.c.list(),
                    old(self).i.c.state(),
                    old(self).i.start@,
                    old(self).i.end@,
                    false,
                );
                &&& final(self).i.c.state() == after
                &&& match r {
                    Some(pair) => want == Some(DataView::KeyValue(pair@.0, pair@.1)),
                    None => want is None,
                }
            }),
    {
        match self.i.pick(false) {
            Some(Data::KeyValue(pair)) => Some(pair),
            _ => None,
        }
    }
}

impl<'a, 'r> Buckets<Range<'a, 'r>> {
    /// The next nested bucket of the range, by its name.
    pub fn next(&mut self) -> (r: Option<BucketName<'a>>)
        requires
            old(self).i.c.wf(),
            in_order(old(self).i.c.list()),
            sound(old(self).i.c.list(), old(self).i.c.state()),
        ensures
            final(self).i.c.wf(),
            final(self).i.c.list() == old(self).i.c.list(),
            sound(final(self).i.c.list(), final(self).i.c.state()),
            final(self).i.start == old(self).i.start,
            final(self).i.end == old(self).i.end,
            ({
                let (want, after) = range_pick(
                    old(self).i.c.list(),
                    old(self).i.c.state(),
                    old(self).i.start@,
                    old(self).i.end@,
                    true,
                );
                &&& final(self).i.c.state() == after
                &&& match r {
                    Some(name) => want == Some(DataView::Bucket(name@)),
                    None => want is None,
                }
            }),
    {
        match self.i.pick(true) {
            Some(Data::Bucket(name)) => Some(name),
            _ => None,
        }
    }
}

impl<'b> Bucket<'b> {
    /// A cursor over the bucket, not placed yet.
    pub fn cursor(&self) -> (r: Cursor<'_>)
        requires
            self.wf(),
        ensures
            r.wf(),
            r.list() == data_in(self.space().tree),
            in_order(r.list()),
            r.state() == unplaced(),
    {
        proof {
            crate::api::map::lemma_data_in_order(*self.node);
        }
        Cursor::new(&*self.node)
    }

    /// The nested buckets, in order.
    pub fn buckets(&self) -> (r: Buckets<Cursor<'_>>)
        requires
            self.wf(),
        ensures
            r.i.wf(),
            r.i.list() == data_in(self.space().tree),
            in_order(r.i.list()),
            r.i.state() == unplaced(),
    {
        self.cursor().to_buckets()
    }

    /// The key / value pairs, in order.
    pub fn kv_pairs(&self) -> (r: KVPairs<Cursor<'_>>)
        requires
            self.wf(),
        ensures
            r.i.wf(),
            r.i.list() == data_in(self.space().tree),
            in_order(r.i.list()),
            r.i.state() == unplaced(),
    {
        self.cursor().to_kv_pairs()
    }

    /// The entries within bounds, in order.
    pub fn range<'r>(&self, start: Bound<'r>, end: Bound<'r>) -> (r: Range<'_, 'r>)
        requires
            self.wf(),
        ensures
            r.c.wf(),
            r.c.list() == data_in(self.space().tree),
            in_order(r.c.list()),
            r.c.state() == unplaced(),
            r.start == start,
            r.end == end,
    {
        Range { c: self.cursor(), start, end }
    }
}

} // verus!
