//! What a bucket holds: other buckets, and key/value pairs.

use vstd::prelude::*;

verus! {

/// A bucket entry.
#[derive(Clone, Copy, Debug, PartialEq, Eq)]
pub enum Data<'tx> {
    Bucket(BucketName<'tx>),
    KeyValue(KVPair<'tx>),
}

/// A bucket entry by the values it holds.
pub enum DataView {
    Bucket(Seq<u8>),
    KeyValue(Seq<u8>, Seq<u8>),
}

impl DataView {
    /// The name or the key.
    pub open spec fn key(self) -> Seq<u8> {
        match self {
            DataView::Bucket(name) => name,
            DataView::KeyValue(key, _) => key,
        }
    }
}

impl<'tx> View for Data<'tx> {
    type V = DataView;

    open spec fn view(&self) -> DataView {
        match self {
            Data::Bucket(bucket) => DataView::Bucket(bucket@),
            Data::KeyValue(pair) => DataView::KeyValue(pair@.0, pair@.1),
        }
    }
}

impl<'tx> Data<'tx> {
    /// Whether the entry is a key/value pair.
    pub fn is_kv(&self) -> (r: bool)
        ensures
            r == (self@ is KeyValue),
    {
        match self {
            Data::KeyValue(_) => true,
            Data::Bucket(_) => false,
        }
    }

    /// The key/value pair that the entry is.
    pub fn kv(&self) -> (r: KVPair<'tx>)
        requires
            self@ is KeyValue,
        ensures
            self@ == DataView::KeyValue(r@.0, r@.1),
    {
        match self {
            Data::KeyValue(pair) => *pair,
            Data::Bucket(_) => vstd::pervasive::unreached(),
        }
    }

    /// The name or the key.
    pub fn key(&self) -> (r: &'tx [u8])
        ensures
            r@ == self@.key(),
    {
        match self {
            Data::Bucket(bucket) => bucket.name,
            Data::KeyValue(pair) => pair.key,
        }
    }
}

/// The name of a bucket.
#[derive(Clone, Copy, Debug, PartialEq, Eq)]
pub struct BucketName<'tx> {
    name: &'tx [u8],
}

impl<'tx> View for BucketName<'tx> {
    type V = Seq<u8>;

    closed spec fn view(&self) -> Seq<u8> {
        self.name@
    }
}

impl<'tx> BucketName<'tx> {
    pub fn new(name: &'tx [u8]) -> (r: Self)
        ensures
            r@ == name@,
    {
        BucketName { name }
    }

    pub fn name(&self) -> (r: &'tx [u8])
        ensures
            r@ == self@,
    {
        self.name
    }
}

/// A key and its value.
#[derive(Clone, Copy, Debug, PartialEq, Eq)]
pub struct KVPair<'tx> {
    key: &'tx [u8],
    value: &'tx [u8],
}

impl<'tx> View for KVPair<'tx> {
    type V = (Seq<u8>, Seq<u8>);

    closed spec fn view(&self) -> (Seq<u8>, Seq<u8>) {
        (self.key@, self.value@)
    }
}

impl<'tx> KVPair<'tx> {
    pub fn new(key: &'tx [u8], value: &'tx [u8]) -> (r: Self)
        ensures
            r@ == (key@, value@),
    {
        KVPair { key, value }
    }

    pub fn key(&self) -> (r: &'tx [u8])
        ensures
            r@ == self@.0,
    {
        self.key
    }

    pub fn value(&self) -> (r: &'tx [u8])
        ensures
            r@ == self@.1,
    {
        self.value
    }

    pub fn kv(&self) -> (r: (&'tx [u8], &'tx [u8]))
        ensures
            (r.0@, r.1@) == self@,
    {
        (self.key, self.value)
    }
}

} // verus!
