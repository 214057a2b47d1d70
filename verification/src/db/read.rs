//! Reading a loaded database, without copying values out of its file.

use crate::assoc;
use crate::bytemap::{self, ByteMap};
use crate::bytes::{self, less, owned};
use crate::cursor::{self, Cursor, Range};
use crate::data::{BucketName, Data, DataView, KVPair};
use crate::db::load::{self, find_bucket, find_entry, BucketIndex, State};
use crate::db::path::{self, child_path, direct_child_name, root_path};
use crate::db::state::{BucketModel, Model};
use crate::error::Error;
use vstd::prelude::*;

verus! {

/// Whether a bucket holds an entry: a bucket in it, or a key with its value.
pub open spec fn bucket_holds(m: Model, at: Seq<u8>, d: DataView) -> bool {
    match d {
        DataView::Bucket(name) => name.len() <= u32::MAX && m.contains_key(
            path::child_of(at, name),
        ),
        DataView::KeyValue(key, value) => m.contains_key(at) && m[at].entries.contains_key(key)
            && m[at].entries[key] == value,
    }
}

/// Whether `s` lists, in order and each once, the entries of a bucket whose
/// keys lie between two bounds.
pub open spec fn lists(
    s: Seq<DataView>,
    m: Model,
    at: Seq<u8>,
    start: BoundView,
    end: BoundView,
) -> bool {
    &&& cursor::ordered(s)
    &&& s.no_duplicates()
    &&& forall|d: DataView| #[trigger]
        s.contains(d) <==> bucket_holds(m, at, d) && within_bounds(start, end, d.key())
}

/// One end of a range of keys.
#[derive(Clone, Copy, Debug)]
pub enum Bound<'a> {
    Included(&'a [u8]),
    Excluded(&'a [u8]),
    Unbounded,
}

/// One end of a range by the values it holds.
pub enum BoundView {
    Included(Seq<u8>),
    Excluded(Seq<u8>),
    Unbounded,
}

impl<'a> View for Bound<'a> {
    type V = BoundView;

    open spec fn view(&self) -> BoundView {
        match self {
            Bound::Included(b) => BoundView::Included(b@),
            Bound::Excluded(b) => BoundView::Excluded(b@),
            Bound::Unbounded => BoundView::Unbounded,
        }
    }
}

/// Whether a key lies in a range.
pub open spec fn within_bounds(start: BoundView, end: BoundView, key: Seq<u8>) -> bool {
    &&& match start {
        BoundView::Included(b) => bytes::lex_le(b, key),
        BoundView::Excluded(b) => bytes::lex_lt(b, key),
        BoundView::Unbounded => true,
    }
    &&& match end {
        BoundView::Included(b) => bytes::lex_le(key, b),
        BoundView::Excluded(b) => bytes::lex_lt(key, b),
        BoundView::Unbounded => true,
    }
}

/// Whether a key lies in a range.
pub fn in_bounds(start: Bound<'_>, end: Bound<'_>, key: &[u8]) -> (r: bool)
    ensures
        r == within_bounds(start@, end@, key@),
{
    let after: bool = match start {
        Bound::Included(b) => {
            proof {
                bytes::lemma_lex_total(b@, key@);
            }
            !less(key, b)
        },
        Bound::Excluded(b) => less(b, key),
        Bound::Unbounded => true,
    };
    let before: bool = match end {
        Bound::Included(b) => {
            proof {
                bytes::lemma_lex_total(b@, key@);
            }
            !less(b, key)
        },
        Bound::Excluded(b) => less(key, b),
        Bound::Unbounded => true,
    };
    after && before
}

/// A stable, zero-copy read transaction.
#[derive(Clone, Copy)]
pub struct ReadTransaction<'db> {
    pub image: &'db [u8],
    pub state: &'db State,
}

impl<'db> ReadTransaction<'db> {
    pub open spec fn model(&self) -> Model {
        self.state.model(self.image@)
    }

    /// Whether the index belongs to the file.
    pub open spec fn wf(&self) -> bool {
        self.state.wf(self.image@)
    }

    /// Opens a bucket by name.
    pub fn bucket(&self, name: &[u8]) -> (r: Result<Bucket<'db>, Error>)
        requires
            self.wf(),
        ensures
            match r {
                Ok(b) => name@.len() <= u32::MAX && b.tx == *self && b.path@ == path::child_of(
                    Seq::empty(),
                    name@,
                ) && b.wf(),
                Err(e) => if name@.len() > u32::MAX {
                    e == Error::TooLarge
                } else {
                    e == Error::BucketNotFound && !self.model().contains_key(
                        path::child_of(Seq::empty(), name@),
                    )
                },
            },
    {
        let at: Vec<u8> = match root_path(name) {
            Ok(at) => at,
            Err(e) => return Err(e),
        };
        match find_bucket(self.image, &self.state.buckets, &at) {
            Ok(_) => Ok(Bucket { tx: *self, path: at }),
            Err(_) => Err(Error::BucketNotFound),
        }
    }

    /// The top-level buckets, in the order of their names.
    pub fn buckets(&self) -> (r: Vec<(BucketName<'db>, Bucket<'db>)>)
        requires
            self.wf(),
        ensures
            lists_buckets(r@, *self, Seq::empty()),
    {
        let top: Vec<u8> = Vec::new();
        direct_buckets(*self, &top)
    }
}

/// Whether `s` lists, in the order of their names, the buckets directly below
/// a path.
pub open spec fn lists_buckets(
    s: Seq<(BucketName<'_>, Bucket<'_>)>,
    tx: ReadTransaction<'_>,
    parent: Seq<u8>,
) -> bool {
    &&& forall|i: int, j: int|
        0 <= i < j < s.len() ==> bytes::lex_lt((#[trigger] s[i]).0@, (#[trigger] s[j]).0@)
    &&& forall|i: int|
        0 <= i < s.len() ==> (#[trigger] s[i]).1.tx == tx && s[i].1.wf() && s[i].1.path@
            == path::child_of(parent, s[i].0@) && s[i].0@.len() <= u32::MAX
    &&& forall|name: Seq<u8>|
        name.len() <= u32::MAX && #[trigger] tx.model().contains_key(path::child_of(parent, name))
            ==> names_bucket(s, name)
}

/// Whether a listed bucket has the name `name`.
pub open spec fn names_bucket(s: Seq<(BucketName<'_>, Bucket<'_>)>, name: Seq<u8>) -> bool {
    exists|i: int| 0 <= i < s.len() && (#[trigger] s[i]).0@ == name
}

/// Finds the buckets directly below a path.
pub fn direct_buckets<'db>(tx: ReadTransaction<'db>, parent: &[u8]) -> (r: Vec<
    (BucketName<'db>, Bucket<'db>),
>)
    requires
        tx.wf(),
    ensures
        lists_buckets(r@, tx, parent@),
{
    let ghost m = tx.model();
    let ghost list = load::bucket_list(tx.image@, tx.state.buckets@);
    let mut found: ByteMap<usize> = ByteMap::new();
    let mut i: usize = 0;
    while i < tx.state.buckets.len()
        invariant
            i <= tx.state.buckets@.len(),
            tx.wf(),
            found.wf(),
            forall|name: Seq<u8>| #[trigger]
                found@.contains_key(name) ==> found@[name] < i && name.len() <= u32::MAX
                    && tx.state.buckets@[found@[name] as int].at.of(tx.image@) == path::child_of(
                    parent@,
                    name,
                ),
            forall|j: int, name: Seq<u8>|
                0 <= j < i && name.len() <= u32::MAX && (#[trigger] tx.state.buckets@[j]).at.of(
                    tx.image@,
                ) == #[trigger] path::child_of(parent@, name) ==> found@.contains_key(name),
        decreases tx.state.buckets@.len() - i,
    {
        assert(tx.state.buckets@[i as int].wf(tx.image@));
        let at: &[u8] = tx.state.buckets[i].at.get(tx.image);
        match direct_child_name(at, parent) {
            Some(name) => {
                let ghost was = found@;
                let _before: Option<usize> = found.insert(owned(name), i);
                proof {
                    assert forall|j: int, other: Seq<u8>|
                        0 <= j < i + 1 && other.len() <= u32::MAX && (
                        #[trigger] tx.state.buckets@[j]).at.of(tx.image@)
                            == #[trigger] path::child_of(
                            parent@,
                            other,
                        ) implies found@.contains_key(other) by {
                        if j == i {
                            lemma_child_names(parent@, name@, other);
                        }
                    }
                }
            },
            None => {},
        }
        i = i + 1;
    }
    proof {
        found.lemma_listing();
    }
    let ghost names = found.listing();
    let mut out: Vec<(BucketName<'db>, Bucket<'db>)> = Vec::new();
    let mut k: usize = 0;
    while k < found.len()
        invariant
            k <= names.len(),
            names == found.listing(),
            found.wf(),
            tx.wf(),
            m == tx.model(),
            bytemap::ascending(names),
            assoc::distinct(names),
            found@ == assoc::assoc(names),
            out@.len() == k,
            forall|name: Seq<u8>| #[trigger]
                found@.contains_key(name) ==> found@[name] < tx.state.buckets@.len() && name.len()
                    <= u32::MAX && tx.state.buckets@[found@[name] as int].at.of(tx.image@)
                    == path::child_of(parent@, name),
            forall|j: int|
                0 <= j < k ==> (#[trigger] out@[j]).0@ == names[j].0 && out@[j].1.tx == tx
                    && out@[j].1.wf() && out@[j].1.path@ == path::child_of(parent@, names[j].0)
                    && names[j].0.len() <= u32::MAX,
        decreases names.len() - k,
    {
        let index: usize = *found.value_at(k);
        proof {
            assoc::lemma_assoc_at(names, k as int);
            assert(found@.contains_key(names[k as int].0));
        }
        assert(tx.state.buckets@[index as int].wf(tx.image@));
        let at: &'db [u8] = tx.state.buckets[index].at.get(tx.image);
        let name: &'db [u8] = match direct_child_name(at, parent) {
            Some(name) => name,
            None => {
                assert(at@ == path::child_of(parent@, names[k as int].0));
                vstd::pervasive::unreached()
            },
        };
        proof {
            lemma_child_names(parent@, name@, names[k as int].0);
            load::lemma_bucket_listed(tx.image@, tx.state.buckets@, index as int);
        }
        let entry: (BucketName<'db>, Bucket<'db>) = (
            BucketName::new(name),
            Bucket { tx, path: owned(at) },
        );
        proof {
            assert(entry.0@ == names[k as int].0);
            assert(entry.1.path@ == path::child_of(parent@, names[k as int].0));
            assert(tx.model().contains_key(entry.1.path@));
            assert(entry.1.wf());
        }
        let ghost was = out@;
        out.push(entry);
        proof {
            assert(names[k as int].0.len() <= u32::MAX);
            assert forall|j: int| 0 <= j < k + 1 implies (#[trigger] out@[j]).0@ == names[j].0
                && out@[j].1.tx == tx && out@[j].1.wf() && out@[j].1.path@ == path::child_of(
                parent@,
                names[j].0,
            ) && names[j].0.len() <= u32::MAX by {
                if j < k {
                    assert(out@[j] == was[j]);
                } else {
                    assert(out@[j] == entry);
                }
            }
        }
        k = k + 1;
    }
    proof {
        assert forall|a: int, b: int| 0 <= a < b < out@.len() implies bytes::lex_lt(
            (#[trigger] out@[a]).0@,
            (#[trigger] out@[b]).0@,
        ) by {
            assert(bytes::lex_lt(names[a].0, names[b].0));
        }
        assert forall|name: Seq<u8>|
            name.len() <= u32::MAX && #[trigger] tx.model().contains_key(
                path::child_of(parent@, name),
            ) implies names_bucket(out@, name) by {
            let at = path::child_of(parent@, name);
            let j = load::lemma_listed_bucket(tx.image@, tx.state.buckets@, at);
            assert(tx.state.buckets@[j].at.of(tx.image@) == at);
            assert(found@.contains_key(name));
            assoc::lemma_assoc_has(names, name);
            let k = choose|k: int| 0 <= k < names.len() && (#[trigger] names[k]).0 == name;
            assert(out@[k].0@ == name);
        }
    }
    out
}

/// Children of one bucket with one path have one name.
proof fn lemma_child_names(parent: Seq<u8>, name: Seq<u8>, other: Seq<u8>)
    requires
        path::child_of(parent, name) == path::child_of(parent, other),
        name.len() <= u32::MAX,
        other.len() <= u32::MAX,
    ensures
        name == other,
{
    let p = path::child_of(parent, name);
    bytes::lemma_le_of_len(name.len(), 4);
    bytes::lemma_le_of_len(other.len(), 4);
    assert(p.len() == parent.len() + 4 + name.len());
    assert(p.skip(parent.len() as int + 4) =~= name);
    assert(p.skip(parent.len() as int + 4) =~= other);
}

/// A read-only view of a bucket.
pub struct Bucket<'tx> {
    pub tx: ReadTransaction<'tx>,
    pub path: Vec<u8>,
}

impl<'tx> Bucket<'tx> {
    /// Whether there is such a bucket.
    pub open spec fn wf(&self) -> bool {
        self.tx.wf() && self.tx.model().contains_key(self.path@)
    }

    /// What the bucket holds.
    pub open spec fn model(&self) -> BucketModel {
        self.tx.model()[self.path@]
    }

    /// Gets an entry without copying it out of the file.
    pub fn get(&self, key: &[u8]) -> (r: Option<Data<'tx>>)
        requires
            self.wf(),
        ensures
            match r {
                Some(d) => key@.len() <= u32::MAX && d@ == (if self.tx.model().contains_key(
                    path::child_of(self.path@, key@),
                ) {
                    DataView::Bucket(key@)
                } else {
                    DataView::KeyValue(key@, self.model().entries[key@])
                }) && bucket_holds(self.tx.model(), self.path@, d@),
                None => key@.len() > u32::MAX || (!self.tx.model().contains_key(
                    path::child_of(self.path@, key@),
                ) && !self.model().entries.contains_key(key@)),
            },
    {
        let child: Vec<u8> = match child_path(&self.path, key) {
            Ok(child) => child,
            Err(_) => return None,
        };
        match find_bucket(self.tx.image, &self.tx.state.buckets, &child) {
            Ok(i) => {
                assert(self.tx.state.buckets@[i as int].wf(self.tx.image@));
                let stored: &'tx [u8] = self.tx.state.buckets[i].at.get(self.tx.image);
                match direct_child_name(stored, &self.path) {
                    Some(name) => {
                        proof {
                            lemma_child_names(self.path@, name@, key@);
                        }
                        Some(Data::Bucket(BucketName::new(name)))
                    },
                    None => None,
                }
            },
            Err(_) => {
                match self.get_kv(key) {
                    Some(pair) => Some(Data::KeyValue(pair)),
                    None => None,
                }
            },
        }
    }

    /// Gets a key/value pair.
    pub fn get_kv(&self, key: &[u8]) -> (r: Option<KVPair<'tx>>)
        requires
            self.wf(),
        ensures
            match r {
                Some(pair) => self.model().entries.contains_key(key@) && pair@ == (
                    key@,
                    self.model().entries[key@],
                ),
                None => !self.model().entries.contains_key(key@),
            },
    {
        match find_bucket(self.tx.image, &self.tx.state.buckets, &self.path) {
            Ok(i) => {
                let bucket: &'tx BucketIndex = &self.tx.state.buckets[i];
                assert(self.tx.state.buckets@[i as int].wf(self.tx.image@));
                match find_entry(self.tx.image, bucket, key) {
                    Ok(e) => {
                        assert(load::slot_within(
                            bucket.entries@[e as int],
                            self.tx.image@.len() as int,
                        ));
                        Some(
                            KVPair::new(
                                bucket.entries[e].0.get(self.tx.image),
                                bucket.entries[e].1.get(self.tx.image),
                            ),
                        )
                    },
                    Err(_) => None,
                }
            },
            Err(_) => None,
        }
    }

    /// Whether the bucket contains `key`.
    pub fn contains_key(&self, key: &[u8]) -> (r: bool)
        requires
            self.wf(),
        ensures
            r == (key@.len() <= u32::MAX && (self.tx.model().contains_key(
                path::child_of(self.path@, key@),
            ) || self.model().entries.contains_key(key@))),
    {
        self.get(key).is_some()
    }

    /// Opens a bucket in this one.
    pub fn get_bucket(&self, name: &[u8]) -> (r: Result<Bucket<'tx>, Error>)
        requires
            self.wf(),
        ensures
            match r {
                Ok(b) => name@.len() <= u32::MAX && b.tx == self.tx && b.path@ == path::child_of(
                    self.path@,
                    name@,
                ) && b.wf(),
                Err(e) => if name@.len() > u32::MAX {
                    e == Error::TooLarge
                } else {
                    e == Error::BucketNotFound && !self.tx.model().contains_key(
                        path::child_of(self.path@, name@),
                    )
                },
            },
    {
        let at: Vec<u8> = match child_path(&self.path, name) {
            Ok(at) => at,
            Err(e) => return Err(e),
        };
        match find_bucket(self.tx.image, &self.tx.state.buckets, &at) {
            Ok(_) => Ok(Bucket { tx: self.tx, path: at }),
            Err(_) => Err(Error::BucketNotFound),
        }
    }

    /// The buckets in this one, in the order of their names.
    pub fn buckets(&self) -> (r: Vec<(BucketName<'tx>, Bucket<'tx>)>)
        requires
            self.wf(),
        ensures
            lists_buckets(r@, self.tx, self.path@),
    {
        direct_buckets(self.tx, &self.path)
    }

    /// The bucket's counter.
    pub fn next_int(&self) -> (r: u64)
        requires
            self.wf(),
        ensures
            r == self.model().next,
    {
        match find_bucket(self.tx.image, &self.tx.state.buckets, &self.path) {
            Ok(i) => self.tx.state.buckets[i].next,
            Err(_) => 0,
        }
    }

    /// The entries of the bucket, in no particular order.
    fn contents(&self) -> (r: Vec<Data<'tx>>)
        requires
            self.wf(),
        ensures
            cursor::views_of(r@).no_duplicates(),
            forall|d: DataView| #[trigger]
                cursor::views_of(r@).contains(d) <==> bucket_holds(
                    self.tx.model(),
                    self.path@,
                    d,
                ),
    {
        let ghost m = self.tx.model();
        let inner: Vec<(BucketName<'tx>, Bucket<'tx>)> = self.buckets();
        let mut items: Vec<Data<'tx>> = Vec::new();
        let mut i: usize = 0;
        while i < inner.len()
            invariant
                i <= inner@.len(),
                items@.len() == i,
                forall|j: int|
                    0 <= j < i ==> #[trigger] cursor::views_of(items@)[j] == DataView::Bucket(
                        inner@[j].0@,
                    ),
            decreases inner@.len() - i,
        {
            let ghost was = cursor::views_of(items@);
            let item: Data<'tx> = Data::Bucket(BucketName::new(inner[i].0.name()));
            items.push(item);
            proof {
                assert(cursor::views_of(items@) =~= was.push(item@));
            }
            i = i + 1;
        }
        let ghost n = inner@.len() as int;
        match find_bucket(self.tx.image, &self.tx.state.buckets, &self.path) {
            Ok(b) => {
                let bucket: &'tx BucketIndex = &self.tx.state.buckets[b];
                assert(self.tx.state.buckets@[b as int].wf(self.tx.image@));
                let ghost s = load::entry_list(self.tx.image@, bucket.entries@);
                let mut k: usize = 0;
                while k < bucket.entries.len()
                    invariant
                        n == inner@.len(),
                        bucket.wf(self.tx.image@),
                        s == load::entry_list(self.tx.image@, bucket.entries@),
                        k <= bucket.entries@.len(),
                        items@.len() == n + k,
                        forall|j: int|
                            0 <= j < n ==> #[trigger] cursor::views_of(items@)[j]
                                == DataView::Bucket(inner@[j].0@),
                        forall|j: int|
                            n <= j < n + k ==> #[trigger] cursor::views_of(items@)[j]
                                == DataView::KeyValue(s[j - n].0, s[j - n].1),
                    decreases bucket.entries@.len() - k,
                {
                    let ghost was = cursor::views_of(items@);
                    assert(load::slot_within(
                        bucket.entries@[k as int],
                        self.tx.image@.len() as int,
                    ));
                    let item: Data<'tx> = Data::KeyValue(
                        KVPair::new(
                            bucket.entries[k].0.get(self.tx.image),
                            bucket.entries[k].1.get(self.tx.image),
                        ),
                    );
                    items.push(item);
                    proof {
                        assert(cursor::views_of(items@) =~= was.push(item@));
                    }
                    k = k + 1;
                }
                proof {
                    self.lemma_contents(
                        cursor::views_of(items@),
                        inner@,
                        *bucket,
                    );
                }
            },
            Err(_) => {},
        }
        items
    }

    proof fn lemma_contents(
        &self,
        v: Seq<DataView>,
        inner: Seq<(BucketName<'tx>, Bucket<'tx>)>,
        bucket: BucketIndex,
    )
        requires
            self.wf(),
            bucket.wf(self.tx.image@),
            self.model() == bucket.model(self.tx.image@),
            lists_buckets(inner, self.tx, self.path@),
            ({
                let s = load::entry_list(self.tx.image@, bucket.entries@);
                let n = inner.len() as int;
                &&& v.len() == n + s.len()
                &&& forall|j: int|
                    0 <= j < n ==> #[trigger] v[j] == DataView::Bucket(inner[j].0@)
                &&& forall|j: int|
                    n <= j < n + s.len() ==> #[trigger] v[j] == DataView::KeyValue(
                        s[j - n].0,
                        s[j - n].1,
                    )
            }),
        ensures
            v.no_duplicates(),
            forall|d: DataView| #[trigger]
                v.contains(d) <==> bucket_holds(self.tx.model(), self.path@, d),
    {
        let m = self.tx.model();
        let s = load::entry_list(self.tx.image@, bucket.entries@);
        let n = inner.len() as int;
        bytemap::lemma_ascending_distinct(s);
        assert forall|a: int, b: int| 0 <= a < v.len() && 0 <= b < v.len() && a != b implies v[a]
            != v[b] by {
            if a < n && b < n {
                if a < b {
                    assert(bytes::lex_lt(inner[a].0@, inner[b].0@));
                } else {
                    assert(bytes::lex_lt(inner[b].0@, inner[a].0@));
                }
                bytes::lemma_lex_irreflexive(inner[a].0@);
            } else if a >= n && b >= n {
                if a < b {
                    assert(s[a - n].0 != s[b - n].0);
                } else {
                    assert(s[b - n].0 != s[a - n].0);
                }
            }
        }
        assert forall|d: DataView| #[trigger] v.contains(d) <==> bucket_holds(m, self.path@, d) by {
            if v.contains(d) {
                let j = choose|j: int| 0 <= j < v.len() && v[j] == d;
                if j < n {
                    assert(inner[j].1.wf());
                } else {
                    assoc::lemma_assoc_at(s, j - n);
                }
            }
            if bucket_holds(m, self.path@, d) {
                match d {
                    DataView::Bucket(name) => {
                        assert(names_bucket(inner, name));
                        let j = choose|j: int|
                            0 <= j < inner.len() && (#[trigger] inner[j]).0@ == name;
                        assert(v[j] == d);
                    },
                    DataView::KeyValue(key, value) => {
                        let e = load::lemma_listed_entry(self.tx.image@, bucket, key);
                        assert(s[e].0 == key && s[e].1 == value);
                        assert(v[n + e] == d);
                    },
                }
            }
        }
    }

    /// A cursor over the bucket's entries.
    pub fn cursor(&self) -> (r: Cursor<'tx>)
        requires
            self.wf(),
        ensures
            r.wf(),
            r.index() == 0,
            !r.started(),
            lists(
                r.items(),
                self.tx.model(),
                self.path@,
                BoundView::Unbounded,
                BoundView::Unbounded,
            ),
    {
        let items: Vec<Data<'tx>> = self.contents();
        let ghost v = cursor::views_of(items@);
        let c: Cursor<'tx> = Cursor::new(items);
        proof {
            lemma_same_members(v, c.items());
        }
        c
    }

    /// The key/value pairs of the bucket, in key order.
    pub fn kv_pairs(&self) -> (r: Vec<KVPair<'tx>>)
        requires
            self.wf(),
        ensures
            forall|i: int, j: int|
                0 <= i < j < r@.len() ==> bytes::lex_lt(
                    (#[trigger] r@[i])@.0,
                    (#[trigger] r@[j])@.0,
                ),
            forall|i: int|
                0 <= i < r@.len() ==> self.model().entries.contains_key((#[trigger] r@[i])@.0)
                    && self.model().entries[r@[i]@.0] == r@[i]@.1,
            forall|key: Seq<u8>| #[trigger]
                self.model().entries.contains_key(key) ==> has_pair(r@, key),
    {
        let mut out: Vec<KVPair<'tx>> = Vec::new();
        match find_bucket(self.tx.image, &self.tx.state.buckets, &self.path) {
            Ok(b) => {
                let bucket: &'tx BucketIndex = &self.tx.state.buckets[b];
                assert(self.tx.state.buckets@[b as int].wf(self.tx.image@));
                let ghost s = load::entry_list(self.tx.image@, bucket.entries@);
                let mut k: usize = 0;
                while k < bucket.entries.len()
                    invariant
                        bucket.wf(self.tx.image@),
                        s == load::entry_list(self.tx.image@, bucket.entries@),
                        k <= bucket.entries@.len(),
                        out@.len() == k,
                        forall|j: int| 0 <= j < k ==> (#[trigger] out@[j])@ == s[j],
                    decreases bucket.entries@.len() - k,
                {
                    assert(load::slot_within(
                        bucket.entries@[k as int],
                        self.tx.image@.len() as int,
                    ));
                    out.push(
                        KVPair::new(
                            bucket.entries[k].0.get(self.tx.image),
                            bucket.entries[k].1.get(self.tx.image),
                        ),
                    );
                    k = k + 1;
                }
                proof {
                    bytemap::lemma_ascending_distinct(s);
                    assert forall|i: int, j: int| 0 <= i < j < out@.len() implies bytes::lex_lt(
                        (#[trigger] out@[i])@.0,
                        (#[trigger] out@[j])@.0,
                    ) by {
                        assert(bytes::lex_lt(s[i].0, s[j].0));
                    }
                    assert forall|i: int| 0 <= i < out@.len() implies self.model().entries
                        .contains_key((#[trigger] out@[i])@.0) && self.model().entries[out@[i]@.0]
                        == out@[i]@.1 by {
                        assoc::lemma_assoc_at(s, i);
                    }
                    assert forall|key: Seq<u8>| #[trigger] self.model().entries.contains_key(
                        key,
                    ) implies has_pair(out@, key) by {
                        let e = load::lemma_listed_entry(self.tx.image@, *bucket, key);
                        assert(out@[e]@.0 == key);
                    }
                }
            },
            Err(_) => {},
        }
        out
    }

    /// The entries whose keys lie in a range, in key order.
    pub fn range(&self, start: Bound<'_>, end: Bound<'_>) -> (r: Range<'tx>)
        requires
            self.wf(),
        ensures
            lists(r.left(), self.tx.model(), self.path@, start@, end@),
    {
        let c: Cursor<'tx> = self.cursor();
        let all: Vec<Data<'tx>> = c.rest();
        let ghost s = cursor::views_of(all@);
        assert(s =~= c.items());
        let mut items: Vec<Data<'tx>> = Vec::new();
        let ghost mut src: Seq<int> = Seq::empty();
        let mut i: usize = 0;
        while i < all.len()
            invariant
                i <= all@.len(),
                s == cursor::views_of(all@),
                picked(cursor::views_of(items@), s, src, start@, end@, i as int),
            decreases all@.len() - i,
        {
            let ghost was = cursor::views_of(items@);
            if in_bounds(start, end, all[i].key()) {
                items.push(all[i]);
                proof {
                    assert(cursor::views_of(items@) =~= was.push(s[i as int]));
                    lemma_pick(was, s, src, start@, end@, i as int);
                    src = src.push(i as int);
                }
            }
            i = i + 1;
        }
        proof {
            let v = cursor::views_of(items@);
            lemma_picked(v, s, src, start@, end@);
            assert forall|d: DataView| #[trigger] v.contains(d) <==> bucket_holds(
                self.tx.model(),
                self.path@,
                d,
            ) && within_bounds(start@, end@, d.key()) by {
                assert(s.contains(d) <==> bucket_holds(self.tx.model(), self.path@, d));
            }
        }
        Range::new(items)
    }
}

/// Whether a pair with the key `key` is listed.
pub open spec fn has_pair(s: Seq<KVPair<'_>>, key: Seq<u8>) -> bool {
    exists|i: int| 0 <= i < s.len() && (#[trigger] s[i])@.0 == key
}

/// Whether `v` holds, in order, those of the first `n` entries of `s` whose
/// keys lie in a range; `src` says which.
spec fn picked(
    v: Seq<DataView>,
    s: Seq<DataView>,
    src: Seq<int>,
    start: BoundView,
    end: BoundView,
    n: int,
) -> bool {
    &&& v.len() == src.len()
    &&& forall|i: int| 0 <= i < src.len() ==> 0 <= (#[trigger] src[i]) < n && v[i] == s[src[i]]
    &&& forall|i: int, j: int| 0 <= i < j < src.len() ==> (#[trigger] src[i]) < (#[trigger] src[j])
    &&& forall|i: int|
        0 <= i < src.len() ==> within_bounds(start, end, s[#[trigger] src[i]].key())
    &&& forall|k: int|
        0 <= k < n && within_bounds(start, end, (#[trigger] s[k]).key()) ==> src.contains(k)
}

proof fn lemma_pick(
    v: Seq<DataView>,
    s: Seq<DataView>,
    src: Seq<int>,
    start: BoundView,
    end: BoundView,
    n: int,
)
    requires
        picked(v, s, src, start, end, n),
        0 <= n < s.len(),
        within_bounds(start, end, s[n].key()),
    ensures
        picked(v.push(s[n]), s, src.push(n), start, end, n + 1),
{
    let now = src.push(n);
    assert forall|k: int|
        0 <= k < n + 1 && within_bounds(start, end, (#[trigger] s[k]).key()) implies now.contains(
        k,
    ) by {
        if k == n {
            assert(now[src.len() as int] == n);
        } else {
            assert(src.contains(k));
            let i = choose|i: int| 0 <= i < src.len() && src[i] == k;
            assert(now[i] == k);
        }
    }
}

proof fn lemma_picked(
    v: Seq<DataView>,
    s: Seq<DataView>,
    src: Seq<int>,
    start: BoundView,
    end: BoundView,
)
    requires
        picked(v, s, src, start, end, s.len() as int),
        cursor::ordered(s),
        s.no_duplicates(),
    ensures
        cursor::ordered(v),
        v.no_duplicates(),
        forall|d: DataView| #[trigger]
            v.contains(d) <==> s.contains(d) && within_bounds(start, end, d.key()),
{
    assert forall|i: int, j: int| 0 <= i < j < v.len() implies bytes::lex_le(
        (#[trigger] v[i]).key(),
        (#[trigger] v[j]).key(),
    ) by {
        assert(src[i] < src[j]);
        assert(bytes::lex_le(s[src[i]].key(), s[src[j]].key()));
    }
    assert forall|i: int, j: int| 0 <= i < v.len() && 0 <= j < v.len() && i != j implies v[i]
        != v[j] by {
        if i < j {
            assert(src[i] < src[j]);
        } else {
            assert(src[j] < src[i]);
        }
    }
    assert forall|d: DataView| #[trigger] v.contains(d) <==> s.contains(d) && within_bounds(
        start,
        end,
        d.key(),
    ) by {
        if v.contains(d) {
            let i = choose|i: int| 0 <= i < v.len() && v[i] == d;
            assert(s[src[i]] == d);
        }
        if s.contains(d) && within_bounds(start, end, d.key()) {
            let k = choose|k: int| 0 <= k < s.len() && s[k] == d;
            assert(src.contains(k));
            let i = choose|i: int| 0 <= i < src.len() && src[i] == k;
            assert(v[i] == d);
        }
    }
}

/// Two lists with the same members as often have the same members.
proof fn lemma_same_members(a: Seq<DataView>, b: Seq<DataView>)
    requires
        a.to_multiset() == b.to_multiset(),
        a.no_duplicates(),
    ensures
        b.no_duplicates(),
        forall|d: DataView| #[trigger] b.contains(d) <==> a.contains(d),
{
    a.lemma_multiset_has_no_duplicates();
    b.lemma_multiset_has_no_duplicates_conv();
    assert forall|d: DataView| #[trigger] b.contains(d) <==> a.contains(d) by {
        vstd::seq_lib::to_multiset_contains(a, d);
        vstd::seq_lib::to_multiset_contains(b, d);
    }
}

} // verus!
