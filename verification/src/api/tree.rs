//! The contents of a bucket: values and nested buckets, sorted by key.

use crate::assoc;
use crate::bytemap::{self, ByteMap};
use crate::bytes::owned;
use crate::error::Error;
use vstd::prelude::*;

verus! {

/// What stands under a key of a bucket.
pub enum Item {
    Value(Seq<u8>),
    Bucket(Tree),
}

/// The contents of a bucket.
pub struct Tree {
    pub items: Map<Seq<u8>, Item>,
    pub next_int: u64,
}

/// An entry of a bucket.
#[derive(Debug)]
pub enum Leaf {
    Kv(Vec<u8>),
    Bucket(Box<Node>),
}

/// A bucket's entries, sorted by key, and its counter of keys.
#[derive(Debug)]
pub struct Node {
    entries: ByteMap<Leaf>,
    next_int: u64,
}

/// What an entry stands for.
pub closed spec fn item_of(leaf: Leaf) -> Item
    decreases leaf,
{
    match leaf {
        Leaf::Kv(value) => Item::Value(value@),
        Leaf::Bucket(node) => Item::Bucket(tree_of(*node)),
    }
}

/// What a bucket's entries stand for.
pub closed spec fn items_of(entries: Seq<(Vec<u8>, Leaf)>) -> Map<Seq<u8>, Item>
    decreases entries,
{
    if entries.len() == 0 {
        Map::empty()
    } else {
        items_of(entries.drop_last()).insert(entries.last().0@, item_of(entries.last().1))
    }
}

/// What a bucket holds.
pub closed spec fn tree_of(node: Node) -> Tree
    decreases node,
{
    Tree { items: items_of(node.entries.entries@), next_int: node.next_int }
}

/// Whether an entry, and all within it, is in order.
pub closed spec fn leaf_wf(leaf: Leaf) -> bool
    decreases leaf,
{
    match leaf {
        Leaf::Kv(_) => true,
        Leaf::Bucket(node) => node_wf(*node),
    }
}

/// Whether all entries, and all within them, are in order.
pub closed spec fn leaves_wf(entries: Seq<(Vec<u8>, Leaf)>) -> bool
    decreases entries,
{
    entries.len() > 0 ==> leaves_wf(entries.drop_last()) && leaf_wf(entries.last().1)
}

/// Whether a bucket's entries, and all within them, are in order.
pub closed spec fn node_wf(node: Node) -> bool
    decreases node,
{
    node.entries.wf() && leaves_wf(node.entries.entries@)
}

proof fn lemma_leaves_wf(entries: Seq<(Vec<u8>, Leaf)>)
    ensures
        leaves_wf(entries) <==> forall|i: int|
            0 <= i < entries.len() ==> leaf_wf((#[trigger] entries[i]).1),
    decreases entries.len(),
{
    if entries.len() > 0 {
        let front = entries.drop_last();
        lemma_leaves_wf(front);
        if leaves_wf(entries) {
            assert forall|i: int| 0 <= i < entries.len() implies leaf_wf(
                (#[trigger] entries[i]).1,
            ) by {
                if i < front.len() {
                    assert(front[i] == entries[i]);
                }
            }
        }
        if forall|i: int| 0 <= i < entries.len() ==> leaf_wf((#[trigger] entries[i]).1) {
            assert forall|i: int| 0 <= i < front.len() implies leaf_wf((#[trigger] front[i]).1) by {
                assert(front[i] == entries[i]);
            }
            assert(leaf_wf(entries[entries.len() - 1].1));
        }
    }
}

/// What the entries of a listing stand for.
pub open spec fn items_listed(s: Seq<(Seq<u8>, Leaf)>) -> Seq<(Seq<u8>, Item)> {
    s.map_values(|e: (Seq<u8>, Leaf)| (e.0, item_of(e.1)))
}

proof fn lemma_items(entries: Seq<(Vec<u8>, Leaf)>)
    ensures
        items_of(entries) == assoc::assoc(items_listed(bytemap::keyed(entries))),
        items_of(entries) == assoc::assoc(bytemap::keyed(entries)).map_values(
            |l: Leaf| item_of(l),
        ),
    decreases entries.len(),
{
    let k = bytemap::keyed(entries);
    let l = items_listed(k);
    if entries.len() > 0 {
        let front = entries.drop_last();
        lemma_items(front);
        assert(bytemap::keyed(front) =~= k.drop_last());
        assert(items_listed(bytemap::keyed(front)) =~= l.drop_last());
        assert(items_of(entries) =~= assoc::assoc(k).map_values(|l: Leaf| item_of(l)));
    } else {
        assert(items_of(entries) =~= assoc::assoc(k).map_values(|l: Leaf| item_of(l)));
    }
}

impl View for Node {
    type V = Tree;

    closed spec fn view(&self) -> Tree {
        tree_of(*self)
    }
}

/// A counter of keys after one more.
pub open spec fn bumped(n: u64) -> u64 {
    if n == u64::MAX {
        n
    } else {
        (n + 1) as u64
    }
}

/// A bucket with nothing in it.
pub open spec fn empty_tree() -> Tree {
    Tree { items: Map::empty(), next_int: 0 }
}

/// A bucket with an item under a key. A key that was not there counts.
pub open spec fn with_item(t: Tree, key: Seq<u8>, item: Item) -> Tree {
    Tree {
        items: t.items.insert(key, item),
        next_int: if t.items.contains_key(key) {
            t.next_int
        } else {
            bumped(t.next_int)
        },
    }
}

/// A bucket without a key.
pub open spec fn without(t: Tree, key: Seq<u8>) -> Tree {
    Tree { items: t.items.remove(key), next_int: t.next_int }
}

/// The value under a key.
pub open spec fn value_of(t: Tree, key: Seq<u8>) -> Option<Seq<u8>> {
    if t.items.contains_key(key) {
        match t.items[key] {
            Item::Value(value) => Some(value),
            Item::Bucket(_) => None,
        }
    } else {
        None
    }
}

/// The nested bucket under a name, or why there is none.
pub open spec fn child_of(t: Tree, name: Seq<u8>) -> Result<Tree, Error> {
    if !t.items.contains_key(name) {
        Err(Error::BucketMissing)
    } else {
        match t.items[name] {
            Item::Value(_) => Err(Error::IncompatibleValue),
            Item::Bucket(child) => Ok(child),
        }
    }
}

/// The bucket that a path of names leads to, if it leads to one.
pub open spec fn bucket_at(t: Tree, path: Seq<Seq<u8>>) -> Option<Tree>
    decreases path.len(),
{
    if path.len() == 0 {
        Some(t)
    } else if t.items.contains_key(path[0]) {
        match t.items[path[0]] {
            Item::Value(_) => None,
            Item::Bucket(child) => bucket_at(child, path.drop_first()),
        }
    } else {
        None
    }
}

/// The value under a key of the bucket that a path leads to.
pub open spec fn value_at(t: Tree, path: Seq<Seq<u8>>, key: Seq<u8>) -> Option<Seq<u8>> {
    match bucket_at(t, path) {
        None => None,
        Some(b) => value_of(b, key),
    }
}

/// Whether there is nothing under a key at the end of a path, and nothing but
/// buckets on the way: as far as there is anything, it is a bucket.
pub open spec fn vacant(t: Tree, path: Seq<Seq<u8>>, key: Seq<u8>) -> bool
    decreases path.len(),
{
    if path.len() == 0 {
        !t.items.contains_key(key)
    } else {
        t.items.contains_key(path[0]) ==> match t.items[path[0]] {
            Item::Value(_) => false,
            Item::Bucket(child) => vacant(child, path.drop_first(), key),
        }
    }
}

/// Whether a path meets nothing but buckets, as far as there is anything.
pub open spec fn unobstructed(t: Tree, path: Seq<Seq<u8>>) -> bool
    decreases path.len(),
{
    path.len() > 0 && t.items.contains_key(path[0]) ==> match t.items[path[0]] {
        Item::Value(_) => false,
        Item::Bucket(child) => unobstructed(child, path.drop_first()),
    }
}

/// A bucket in which the nested bucket under a name is another.
pub open spec fn with_child(t: Tree, name: Seq<u8>, child: Tree) -> Tree {
    Tree { items: t.items.insert(name, Item::Bucket(child)), ..t }
}

/// What storing a value leads to: the value before, and the bucket after.
pub open spec fn put(t: Tree, key: Seq<u8>, value: Seq<u8>) -> Result<
    (Option<Seq<u8>>, Tree),
    Error,
> {
    if t.items.contains_key(key) && t.items[key] is Bucket {
        Err(Error::IncompatibleValue)
    } else {
        Ok((value_of(t, key), with_item(t, key, Item::Value(value))))
    }
}

/// What removing a value leads to: the value, and the bucket after.
pub open spec fn delete(t: Tree, key: Seq<u8>) -> Result<(Seq<u8>, Tree), Error> {
    if !t.items.contains_key(key) {
        Err(Error::KeyValueMissing)
    } else {
        match t.items[key] {
            Item::Value(value) => Ok((value, without(t, key))),
            Item::Bucket(_) => Err(Error::IncompatibleValue),
        }
    }
}

/// What making a nested bucket leads to.
pub open spec fn create_bucket(t: Tree, name: Seq<u8>) -> Result<Tree, Error> {
    if !t.items.contains_key(name) {
        Ok(with_item(t, name, Item::Bucket(empty_tree())))
    } else {
        match t.items[name] {
            Item::Value(_) => Err(Error::IncompatibleValue),
            Item::Bucket(_) => Err(Error::BucketExists),
        }
    }
}

/// A bucket with a nested bucket under a name, which is made where there is
/// nothing.
pub open spec fn ensured(t: Tree, name: Seq<u8>) -> Result<Tree, Error> {
    match create_bucket(t, name) {
        Ok(made) => Ok(made),
        Err(e) => if e == Error::BucketExists {
            Ok(t)
        } else {
            Err(e)
        },
    }
}

/// What removing a nested bucket leads to.
pub open spec fn delete_bucket(t: Tree, name: Seq<u8>) -> Result<Tree, Error> {
    match child_of(t, name) {
        Ok(_) => Ok(without(t, name)),
        Err(e) => Err(e),
    }
}

/// The items of a bucket in key order.
pub open spec fn listing(t: Tree) -> Seq<(Seq<u8>, Item)> {
    bytemap::listed(t.items)
}

/// What an optional value says.
pub open spec fn seen(value: Option<Vec<u8>>) -> Option<Seq<u8>> {
    match value {
        Some(v) => Some(v@),
        None => None,
    }
}

impl Leaf {
    /// What the entry stands for.
    pub open spec fn item(&self) -> Item {
        item_of(*self)
    }

    /// Whether the entry, and all within it, is in order.
    pub open spec fn wf(&self) -> bool {
        leaf_wf(*self)
    }

    /// An entry is a value, or a bucket.
    pub proof fn lemma_item(&self)
        ensures
            match *self {
                Leaf::Kv(value) => self.item() == Item::Value(value@) && self.wf(),
                Leaf::Bucket(node) => self.item() == Item::Bucket(node@) && self.wf() == node.wf(),
            },
    {
    }
}

impl Node {
    /// Whether the entries, and all within them, are in order.
    pub open spec fn wf(&self) -> bool {
        node_wf(*self)
    }

    /// The entries in key order.
    pub closed spec fn leaves(&self) -> Seq<(Seq<u8>, Leaf)> {
        self.entries.listing()
    }

    /// What the view says of the entries.
    proof fn lemma_view(&self)
        requires
            self.wf(),
        ensures
            self@.next_int == self.next_int,
            self.entries.wf(),
            self@.items == self.entries@.map_values(|l: Leaf| item_of(l)),
            forall|i: int|
                0 <= i < self.entries.listing().len() ==> leaf_wf(
                    (#[trigger] self.entries.listing()[i]).1,
                ),
            forall|k: Seq<u8>| #[trigger]
                self.entries@.contains_key(k) ==> leaf_wf(self.entries@[k]),
    {
        self.entries.lemma_entries();
        self.entries.lemma_listing();
        let raw = self.entries.entries@;
        let l = self.entries.listing();
        lemma_items(raw);
        lemma_leaves_wf(raw);
        assert forall|i: int| 0 <= i < l.len() implies leaf_wf((#[trigger] l[i]).1) by {
            assert(leaf_wf(raw[i].1));
        }
        assert forall|k: Seq<u8>| #[trigger] self.entries@.contains_key(k) implies leaf_wf(
            self.entries@[k],
        ) by {
            assoc::lemma_assoc_has(l, k);
            let i = choose|i: int| 0 <= i < l.len() && (#[trigger] l[i]).0 == k;
            assoc::lemma_assoc_at(l, i);
        }
    }

    /// What makes a bucket well-formed.
    proof fn lemma_wf(&self)
        requires
            self.entries.wf(),
            forall|k: Seq<u8>| #[trigger]
                self.entries@.contains_key(k) ==> leaf_wf(self.entries@[k]),
        ensures
            self.wf(),
            self@.next_int == self.next_int,
            self@.items == self.entries@.map_values(|l: Leaf| item_of(l)),
    {
        self.entries.lemma_entries();
        self.entries.lemma_listing();
        let raw = self.entries.entries@;
        let l = self.entries.listing();
        lemma_items(raw);
        lemma_leaves_wf(raw);
        assert forall|i: int| 0 <= i < raw.len() implies leaf_wf((#[trigger] raw[i]).1) by {
            assert(l[i].1 == raw[i].1);
            assoc::lemma_assoc_at(l, i);
            assert(self.entries@.contains_key(l[i].0));
        }
    }

    /// The entries in key order are the listing of what the bucket holds.
    pub proof fn lemma_leaves(&self)
        requires
            self.wf(),
        ensures
            listing(self@) == items_listed(self.leaves()),
            bytemap::ascending(items_listed(self.leaves())),
            assoc::assoc(items_listed(self.leaves())) == self@.items,
            bytemap::ascending(self.leaves()),
            forall|i: int|
                0 <= i < self.leaves().len() ==> (#[trigger] self.leaves()[i]).1.wf()
                    && self@.items.contains_key(self.leaves()[i].0)
                    && self@.items[self.leaves()[i].0] == self.leaves()[i].1.item(),
    {
        self.lemma_view();
        self.entries.lemma_entries();
        self.entries.lemma_listing();
        let l = self.leaves();
        let s = items_listed(l);
        lemma_items(self.entries.entries@);
        assert forall|i: int, j: int| 0 <= i < j < s.len() implies crate::bytes::lex_lt(
            (#[trigger] s[i]).0,
            (#[trigger] s[j]).0,
        ) by {
            assert(crate::bytes::lex_lt(l[i].0, l[j].0));
        }
        bytemap::lemma_listed(s);
        assert forall|i: int| 0 <= i < l.len() implies (#[trigger] l[i]).1.wf()
            && self@.items.contains_key(l[i].0) && self@.items[l[i].0] == l[i].1.item() by {
            assoc::lemma_assoc_at(l, i);
        }
    }

    /// An empty bucket.
    pub fn new() -> (r: Self)
        ensures
            r.wf(),
            r@ == empty_tree(),
    {
        let r: Node = Node { entries: ByteMap::new(), next_int: 0 };
        proof {
            r.lemma_wf();
            assert(r@.items =~= Map::<Seq<u8>, Item>::empty());
        }
        r
    }

    /// The counter of keys.
    pub fn next_int(&self) -> (r: u64)
        ensures
            r == self@.next_int,
    {
        self.next_int
    }

    /// Sets the counter of keys.
    pub fn set_next_int(&mut self, n: u64)
        requires
            old(self).wf(),
        ensures
            final(self).wf(),
            final(self)@ == (Tree { next_int: n, ..old(self)@ }),
    {
        proof {
            self.lemma_view();
        }
        self.next_int = n;
        proof {
            self.lemma_wf();
        }
    }

    /// How many entries there are.
    pub fn len(&self) -> (r: usize)
        ensures
            r == self.leaves().len(),
    {
        self.entries.len()
    }

    /// The key of the entry at `i`.
    pub fn key_at(&self, i: usize) -> (r: &Vec<u8>)
        requires
            i < self.leaves().len(),
        ensures
            r@ == self.leaves()[i as int].0,
    {
        self.entries.key_at(i)
    }

    /// The entry at `i`.
    pub fn leaf_at(&self, i: usize) -> (r: &Leaf)
        requires
            i < self.leaves().len(),
        ensures
            *r == self.leaves()[i as int].1,
    {
        self.entries.value_at(i)
    }

    /// Where a key stands among the entries, or where it belongs.
    pub fn find(&self, key: &[u8]) -> (r: Result<usize, usize>)
        requires
            self.wf(),
        ensures
            match r {
                Ok(i) => i < self.leaves().len() && self.leaves()[i as int].0 == key@
                    && self@.items.contains_key(key@) && self@.items[key@]
                    == self.leaves()[i as int].1.item(),
                Err(i) => i <= self.leaves().len() && !self@.items.contains_key(key@) && (forall|
                    j: int,
                |
                    0 <= j < i ==> crate::bytes::lex_lt((#[trigger] self.leaves()[j]).0, key@)) && (
                forall|j: int|
                    i <= j < self.leaves().len() ==> crate::bytes::lex_lt(
                        key@,
                        (#[trigger] self.leaves()[j]).0,
                    )),
            },
    {
        proof {
            self.lemma_view();
        }
        self.entries.find(key)
    }

    /// The entry under a key.
    pub fn get(&self, key: &[u8]) -> (r: Option<&Leaf>)
        requires
            self.wf(),
        ensures
            match r {
                Some(leaf) => leaf.wf() && self@.items.contains_key(key@) && self@.items[key@]
                    == leaf.item(),
                None => !self@.items.contains_key(key@),
            },
    {
        proof {
            self.lemma_view();
        }
        self.entries.get(key)
    }

    /// The value under a key.
    pub fn get_kv(&self, key: &[u8]) -> (r: Option<&Vec<u8>>)
        requires
            self.wf(),
        ensures
            match r {
                Some(value) => value_of(self@, key@) == Some(value@),
                None => value_of(self@, key@) is None,
            },
    {
        match self.get(key) {
            Some(leaf) => {
                proof {
                    leaf.lemma_item();
                }
                match leaf {
                    Leaf::Kv(value) => Some(value),
                    Leaf::Bucket(_) => None,
                }
            },
            None => None,
        }
    }

    /// The nested bucket under a name.
    pub fn child(&self, name: &[u8]) -> (r: Result<&Node, Error>)
        requires
            self.wf(),
        ensures
            match r {
                Ok(node) => node.wf() && child_of(self@, name@) == Ok::<Tree, Error>(node@),
                Err(e) => child_of(self@, name@) == Err::<Tree, Error>(e),
            },
    {
        match self.get(name) {
            Some(leaf) => {
                proof {
                    leaf.lemma_item();
                }
                match leaf {
                    Leaf::Kv(_) => Err(Error::IncompatibleValue),
                    Leaf::Bucket(node) => Ok(&**node),
                }
            },
            None => Err(Error::BucketMissing),
        }
    }

    /// Puts an entry under a key, and hands back the one before.
    fn set(&mut self, key: &[u8], leaf: Leaf) -> (r: Option<Leaf>)
        requires
            old(self).wf(),
            leaf.wf(),
        ensures
            final(self).wf(),
            final(self)@ == with_item(old(self)@, key@, leaf.item()),
            match r {
                Some(before) => before.wf() && old(self)@.items.contains_key(key@) && old(
                    self,
                )@.items[key@] == before.item(),
                None => !old(self)@.items.contains_key(key@),
            },
    {
        proof {
            self.lemma_view();
        }
        let ghost was = *self;
        let r: Option<Leaf> = self.entries.insert(owned(key), leaf);
        match r {
            Some(_) => {},
            None => {
                if self.next_int < u64::MAX {
                    self.next_int = self.next_int + 1;
                }
            },
        }
        proof {
            self.lemma_wf();
            assert(self@.items =~= was@.items.insert(key@, leaf.item()));
        }
        r
    }

    /// Stores a value under a key, and hands back the one before.
    pub fn put(&mut self, key: &[u8], value: Vec<u8>) -> (r: Result<Option<Vec<u8>>, Error>)
        requires
            old(self).wf(),
        ensures
            final(self).wf(),
            match (r, put(old(self)@, key@, value@)) {
                (Ok(before), Ok((was, t))) => seen(before) == was && final(self)@ == t,
                (Err(e), Err(f)) => e == f && final(self)@ == old(self)@,
                _ => false,
            },
    {
        let taken: bool = match self.get(key) {
            Some(leaf) => {
                proof {
                    leaf.lemma_item();
                }
                match leaf {
                    Leaf::Kv(_) => false,
                    Leaf::Bucket(_) => true,
                }
            },
            None => false,
        };
        if taken {
            return Err(Error::IncompatibleValue);
        }
        let leaf: Leaf = Leaf::Kv(value);
        proof {
            leaf.lemma_item();
        }
        match self.set(key, leaf) {
            Some(before) => {
                proof {
                    before.lemma_item();
                }
                match before {
                    Leaf::Kv(value) => Ok(Some(value)),
                    Leaf::Bucket(_) => Ok(None),
                }
            },
            None => Ok(None),
        }
    }

    /// Removes the entry under a key.
    fn take(&mut self, key: &[u8]) -> (r: Option<Leaf>)
        requires
            old(self).wf(),
        ensures
            final(self).wf(),
            final(self)@ == without(old(self)@, key@),
            match r {
                Some(before) => before.wf() && old(self)@.items.contains_key(key@) && old(
                    self,
                )@.items[key@] == before.item(),
                None => !old(self)@.items.contains_key(key@),
            },
    {
        proof {
            self.lemma_view();
        }
        let ghost was = *self;
        let r: Option<Leaf> = self.entries.remove(key);
        proof {
            self.lemma_wf();
            assert(self@.items =~= was@.items.remove(key@));
        }
        r
    }

    /// Removes a value.
    pub fn delete(&mut self, key: &[u8]) -> (r: Result<Vec<u8>, Error>)
        requires
            old(self).wf(),
        ensures
            final(self).wf(),
            match (r, delete(old(self)@, key@)) {
                (Ok(value), Ok((was, t))) => value@ == was && final(self)@ == t,
                (Err(e), Err(f)) => e == f && final(self)@ == old(self)@,
                _ => false,
            },
    {
        let found: Result<(), Error> = match self.get(key) {
            Some(leaf) => {
                proof {
                    leaf.lemma_item();
                }
                match leaf {
                    Leaf::Kv(_) => Ok(()),
                    Leaf::Bucket(_) => Err(Error::IncompatibleValue),
                }
            },
            None => Err(Error::KeyValueMissing),
        };
        match found {
            Ok(_) => {},
            Err(e) => return Err(e),
        }
        match self.take(key) {
            Some(before) => {
                proof {
                    before.lemma_item();
                }
                match before {
                    Leaf::Kv(value) => Ok(value),
                    Leaf::Bucket(_) => Err(Error::IncompatibleValue),
                }
            },
            None => Err(Error::KeyValueMissing),
        }
    }

    /// Removes a nested bucket with all that is in it.
    pub fn delete_bucket(&mut self, name: &[u8]) -> (r: Result<(), Error>)
        requires
            old(self).wf(),
        ensures
            final(self).wf(),
            match (r, delete_bucket(old(self)@, name@)) {
                (Ok(_), Ok(t)) => final(self)@ == t,
                (Err(e), Err(f)) => e == f && final(self)@ == old(self)@,
                _ => false,
            },
    {
        match self.child(name) {
            Ok(_) => {},
            Err(e) => return Err(e),
        }
        let _gone: Option<Leaf> = self.take(name);
        Ok(())
    }

    /// Makes an empty nested bucket.
    pub fn create_bucket(&mut self, name: &[u8]) -> (r: Result<(), Error>)
        requires
            old(self).wf(),
        ensures
            final(self).wf(),
            match (r, create_bucket(old(self)@, name@)) {
                (Ok(_), Ok(t)) => final(self)@ == t,
                (Err(e), Err(f)) => e == f && final(self)@ == old(self)@,
                _ => false,
            },
    {
        let found: Result<(), Error> = match self.get(name) {
            Some(leaf) => {
                proof {
                    leaf.lemma_item();
                }
                match leaf {
                    Leaf::Kv(_) => Err(Error::IncompatibleValue),
                    Leaf::Bucket(_) => Err(Error::BucketExists),
                }
            },
            None => Ok(()),
        };
        match found {
            Ok(_) => {},
            Err(e) => return Err(e),
        }
        let leaf: Leaf = Leaf::Bucket(Box::new(Node::new()));
        proof {
            leaf.lemma_item();
        }
        let _before: Option<Leaf> = self.set(name, leaf);
        Ok(())
    }

    /// Sees to it that there is a nested bucket under a name; says whether it
    /// was made.
    pub fn ensure_bucket(&mut self, name: &[u8]) -> (r: Result<bool, Error>)
        requires
            old(self).wf(),
        ensures
            final(self).wf(),
            match (r, ensured(old(self)@, name@)) {
                (Ok(made), Ok(t)) => final(self)@ == t && made == !old(self)@.items.contains_key(
                    name@,
                ),
                (Err(e), Err(f)) => e == f && final(self)@ == old(self)@,
                _ => false,
            },
    {
        match self.create_bucket(name) {
            Ok(_) => Ok(true),
            Err(Error::BucketExists) => Ok(false),
            Err(e) => Err(e),
        }
    }

    /// What the bucket holds once the nested bucket under a name is another.
    proof fn lemma_child_changes(&self, name: Seq<u8>)
        requires
            self.wf(),
            self@.items.contains_key(name),
        ensures
            forall|entries: ByteMap<Leaf>, node: Node|
                #![trigger entries.wf(), self.entries@.insert(name, Leaf::Bucket(Box::new(node)))]
                entries.wf() && node.wf() && entries@ == self.entries@.insert(
                    name,
                    Leaf::Bucket(Box::new(node)),
                ) ==> ({
                    let after = Node { entries, next_int: self.next_int };
                    after.wf() && after@ == with_child(self@, name, node@)
                }),
    {
        assert forall|entries: ByteMap<Leaf>, node: Node|
            #![trigger entries.wf(), self.entries@.insert(name, Leaf::Bucket(Box::new(node)))]
            entries.wf() && node.wf() && entries@ == self.entries@.insert(
                name,
                Leaf::Bucket(Box::new(node)),
            ) implies ({
            let after = Node { entries, next_int: self.next_int };
            after.wf() && after@ == with_child(self@, name, node@)
        }) by {
            let after = Node { entries, next_int: self.next_int };
            let leaf = Leaf::Bucket(Box::new(node));
            self.lemma_view();
            leaf.lemma_item();
            after.lemma_wf();
            assert(after@.items =~= with_child(self@, name, node@).items);
        }
    }

    /// The nested bucket under a name, to be changed.
    pub fn child_mut(&mut self, name: &[u8]) -> (r: Result<&mut Node, Error>)
        requires
            old(self).wf(),
        ensures
            match r {
                Ok(node) => node.wf() && child_of(old(self)@, name@) == Ok::<Tree, Error>(node@)
                    && (final(node).wf() ==> final(self).wf() && final(self)@ == with_child(
                    old(self)@,
                    name@,
                    final(node)@,
                )),
                Err(e) => child_of(old(self)@, name@) == Err::<Tree, Error>(e) && *final(self)
                    == *old(self),
            },
    {
        match self.child(name) {
            Ok(_) => {},
            Err(e) => return Err(e),
        }
        let i: usize = match self.entries.find(name) {
            Ok(i) => i,
            Err(_) => {
                proof {
                    self.lemma_view();
                }
                return Err(Error::BucketMissing);
            },
        };
        proof {
            self.lemma_view();
            self.lemma_child_changes(name@);
            self.entries.lemma_listing();
            assoc::lemma_assoc_at(self.entries.listing(), i as int);
            self.entries.listing()[i as int].1.lemma_item();
        }
        match self.entries.value_mut(i) {
            Leaf::Kv(_) => Err(Error::IncompatibleValue),
            Leaf::Bucket(node) => Ok(&mut **node),
        }
    }
}

} // verus!
