//! Meta records: which tree, which freelist and which transaction count.

use crate::bytes::{
    self, append, push_u32_be, push_u32_le, push_u64_be, push_u64_le, u32_le_at, u64_le_at,
};
use crate::error::{Error, Fault};
use crate::hash::{self, hash};
use crate::storage::node::{self, push_block_header};
use crate::storage::page::{
    self, Page, CHECKSUM_SIZE, DATA_OFFSET, FORMAT_VERSION, META_SIZE,
    TYPE_FREELIST, TYPE_LEAF, TYPE_META,
};
use vstd::prelude::*;

verus! {

pub const MAGIC_VALUE: u32 = 0x00AB_CDEF;

/// The record of a bucket: the root of its tree, and its counter.
#[derive(Clone, Copy, Debug, PartialEq, Eq, Structural)]
pub struct BucketMeta {
    pub root_page: u64,
    pub next_int: u64,
}

/// A meta record.
#[derive(Clone, Copy, Debug, PartialEq, Eq, Structural)]
pub struct Meta {
    pub meta_page: u32,
    pub magic: u32,
    pub version: u32,
    pub pagesize: u64,
    pub root: BucketMeta,
    pub num_pages: u64,
    pub freelist_page: u64,
    pub tx_id: u64,
    pub hash: u64,
}

/// What the hash of a meta record is taken of: its fields but for the hash,
/// most significant byte first.
pub open spec fn hashed_fields(m: Meta) -> Seq<u8> {
    bytes::be_of(m.meta_page as nat, 4) + bytes::be_of(m.magic as nat, 4) + bytes::be_of(
        m.version as nat,
        4,
    ) + bytes::be_of(m.pagesize as nat, 8) + bytes::be_of(m.root.root_page as nat, 8)
        + bytes::be_of(m.root.next_int as nat, 8) + bytes::be_of(m.num_pages as nat, 8)
        + bytes::be_of(m.freelist_page as nat, 8) + bytes::be_of(m.tx_id as nat, 8)
}

/// The hash of a meta record.
pub open spec fn hash_of(m: Meta) -> u64 {
    hash::fnv1a(hashed_fields(m))
}

/// A meta record as it is written.
pub open spec fn meta_record(m: Meta) -> Seq<u8> {
    bytes::le_of(m.meta_page as nat, 4) + bytes::le_of(m.magic as nat, 4) + bytes::le_of(
        m.version as nat,
        4,
    ) + bytes::zeros(4) + bytes::le_of(m.pagesize as nat, 8) + bytes::le_of(
        m.root.root_page as nat,
        8,
    ) + bytes::le_of(m.root.next_int as nat, 8) + bytes::le_of(m.num_pages as nat, 8)
        + bytes::le_of(m.freelist_page as nat, 8) + bytes::le_of(m.tx_id as nat, 8)
        + bytes::le_of(m.hash as nat, 8)
}

/// What a meta record reads as.
pub open spec fn meta_of(s: Seq<u8>) -> Meta {
    Meta {
        meta_page: bytes::le_at(s, 0, 4) as u32,
        magic: bytes::le_at(s, 4, 4) as u32,
        version: bytes::le_at(s, 8, 4) as u32,
        pagesize: bytes::le_at(s, 16, 8) as u64,
        root: BucketMeta {
            root_page: bytes::le_at(s, 24, 8) as u64,
            next_int: bytes::le_at(s, 32, 8) as u64,
        },
        num_pages: bytes::le_at(s, 40, 8) as u64,
        freelist_page: bytes::le_at(s, 48, 8) as u64,
        tx_id: bytes::le_at(s, 56, 8) as u64,
        hash: bytes::le_at(s, 64, 8) as u64,
    }
}

impl BucketMeta {
    /// The record of a bucket as it is written.
    pub open spec fn record(self) -> Seq<u8> {
        bytes::le_of(self.root_page as nat, 8) + bytes::le_of(self.next_int as nat, 8)
    }

    /// What the record of a bucket reads as.
    pub open spec fn of(s: Seq<u8>) -> BucketMeta {
        BucketMeta {
            root_page: bytes::le_at(s, 0, 8) as u64,
            next_int: bytes::le_at(s, 8, 8) as u64,
        }
    }

    /// Writes the record of a bucket.
    pub fn to_bytes(&self) -> (r: Vec<u8>)
        ensures
            r@ == self.record(),
            r@.len() == 16,
    {
        let mut out: Vec<u8> = Vec::new();
        push_u64_le(&mut out, self.root_page);
        push_u64_le(&mut out, self.next_int);
        proof {
            bytes::lemma_le_of_len(self.root_page as nat, 8);
            bytes::lemma_le_of_len(self.next_int as nat, 8);
        }
        assert(out@ =~= self.record());
        out
    }

    /// Reads the record of a bucket.
    pub fn from_bytes(s: &[u8]) -> (r: BucketMeta)
        requires
            s@.len() >= 16,
        ensures
            r == BucketMeta::of(s@),
    {
        BucketMeta { root_page: u64_le_at(s, 0), next_int: u64_le_at(s, 8) }
    }
}

/// The record of a bucket reads back as it was written.
pub proof fn law_bucket_record_round_trip(m: BucketMeta)
    ensures
        BucketMeta::of(m.record()) == m,
{
    let s = m.record();
    bytes::lemma_pow256_widths();
    bytes::lemma_le_of_len(m.root_page as nat, 8);
    bytes::lemma_le_of_len(m.next_int as nat, 8);
    assert(s.subrange(0, 8) =~= bytes::le_of(m.root_page as nat, 8));
    assert(s.subrange(8, 16) =~= bytes::le_of(m.next_int as nat, 8));
    bytes::lemma_le_field(s, 0, m.root_page as nat, 8);
    bytes::lemma_le_field(s, 8, m.next_int as nat, 8);
}

impl Meta {
    /// Whether the hash is that of the record.
    pub fn valid(&self) -> (r: bool)
        ensures
            r == (self.hash == hash_of(*self)),
    {
        self.hash == self.hash_self()
    }

    /// The hash of the record.
    pub fn hash_self(&self) -> (r: u64)
        ensures
            r == hash_of(*self),
    {
        let mut out: Vec<u8> = Vec::new();
        push_u32_be(&mut out, self.meta_page);
        push_u32_be(&mut out, self.magic);
        push_u32_be(&mut out, self.version);
        push_u64_be(&mut out, self.pagesize);
        push_u64_be(&mut out, self.root.root_page);
        push_u64_be(&mut out, self.root.next_int);
        push_u64_be(&mut out, self.num_pages);
        push_u64_be(&mut out, self.freelist_page);
        push_u64_be(&mut out, self.tx_id);
        assert(out@ =~= hashed_fields(*self));
        hash(&out)
    }

    /// Writes the record.
    pub fn to_bytes(&self) -> (r: Vec<u8>)
        ensures
            r@ == meta_record(*self),
            r@.len() == META_SIZE,
    {
        let mut out: Vec<u8> = Vec::new();
        push_u32_le(&mut out, self.meta_page);
        push_u32_le(&mut out, self.magic);
        push_u32_le(&mut out, self.version);
        crate::page::push_zeros(&mut out, 4);
        push_u64_le(&mut out, self.pagesize);
        push_u64_le(&mut out, self.root.root_page);
        push_u64_le(&mut out, self.root.next_int);
        push_u64_le(&mut out, self.num_pages);
        push_u64_le(&mut out, self.freelist_page);
        push_u64_le(&mut out, self.tx_id);
        push_u64_le(&mut out, self.hash);
        assert(out@ =~= meta_record(*self));
        proof {
            lemma_record_len(*self);
        }
        out
    }

    /// Reads a record.
    pub fn from_bytes(s: &[u8]) -> (r: Meta)
        requires
            s@.len() >= META_SIZE,
        ensures
            r == meta_of(s@),
    {
        Meta {
            meta_page: u32_le_at(s, 0),
            magic: u32_le_at(s, 4),
            version: u32_le_at(s, 8),
            pagesize: u64_le_at(s, 16),
            root: BucketMeta { root_page: u64_le_at(s, 24), next_int: u64_le_at(s, 32) },
            num_pages: u64_le_at(s, 40),
            freelist_page: u64_le_at(s, 48),
            tx_id: u64_le_at(s, 56),
            hash: u64_le_at(s, 64),
        }
    }
}

proof fn lemma_record_len(m: Meta)
    ensures
        meta_record(m).len() == META_SIZE,
{
    bytes::lemma_le_of_len(m.meta_page as nat, 4);
    bytes::lemma_le_of_len(m.magic as nat, 4);
    bytes::lemma_le_of_len(m.version as nat, 4);
    bytes::lemma_le_of_len(m.pagesize as nat, 8);
    bytes::lemma_le_of_len(m.root.root_page as nat, 8);
    bytes::lemma_le_of_len(m.root.next_int as nat, 8);
    bytes::lemma_le_of_len(m.num_pages as nat, 8);
    bytes::lemma_le_of_len(m.freelist_page as nat, 8);
    bytes::lemma_le_of_len(m.tx_id as nat, 8);
    bytes::lemma_le_of_len(m.hash as nat, 8);
}

/// A meta record reads back as it was written.
pub proof fn law_meta_record_round_trip(m: Meta)
    ensures
        meta_of(meta_record(m)) == m,
{
    let s = meta_record(m);
    lemma_record_len(m);
    bytes::lemma_pow256_widths();
    bytes::lemma_le_of_len(m.meta_page as nat, 4);
    bytes::lemma_le_of_len(m.magic as nat, 4);
    bytes::lemma_le_of_len(m.version as nat, 4);
    bytes::lemma_le_of_len(m.pagesize as nat, 8);
    bytes::lemma_le_of_len(m.root.root_page as nat, 8);
    bytes::lemma_le_of_len(m.root.next_int as nat, 8);
    bytes::lemma_le_of_len(m.num_pages as nat, 8);
    bytes::lemma_le_of_len(m.freelist_page as nat, 8);
    bytes::lemma_le_of_len(m.tx_id as nat, 8);
    bytes::lemma_le_of_len(m.hash as nat, 8);
    assert(s.subrange(0, 4) =~= bytes::le_of(m.meta_page as nat, 4));
    assert(s.subrange(4, 8) =~= bytes::le_of(m.magic as nat, 4));
    assert(s.subrange(8, 12) =~= bytes::le_of(m.version as nat, 4));
    assert(s.subrange(16, 24) =~= bytes::le_of(m.pagesize as nat, 8));
    assert(s.subrange(24, 32) =~= bytes::le_of(m.root.root_page as nat, 8));
    assert(s.subrange(32, 40) =~= bytes::le_of(m.root.next_int as nat, 8));
    assert(s.subrange(40, 48) =~= bytes::le_of(m.num_pages as nat, 8));
    assert(s.subrange(48, 56) =~= bytes::le_of(m.freelist_page as nat, 8));
    assert(s.subrange(56, 64) =~= bytes::le_of(m.tx_id as nat, 8));
    assert(s.subrange(64, 72) =~= bytes::le_of(m.hash as nat, 8));
    bytes::lemma_le_field(s, 0, m.meta_page as nat, 4);
    bytes::lemma_le_field(s, 4, m.magic as nat, 4);
    bytes::lemma_le_field(s, 8, m.version as nat, 4);
    bytes::lemma_le_field(s, 16, m.pagesize as nat, 8);
    bytes::lemma_le_field(s, 24, m.root.root_page as nat, 8);
    bytes::lemma_le_field(s, 32, m.root.next_int as nat, 8);
    bytes::lemma_le_field(s, 40, m.num_pages as nat, 8);
    bytes::lemma_le_field(s, 48, m.freelist_page as nat, 8);
    bytes::lemma_le_field(s, 56, m.tx_id as nat, 8);
    bytes::lemma_le_field(s, 64, m.hash as nat, 8);
}

/// A meta record with its hash.
pub open spec fn hashed(m: Meta) -> Meta {
    Meta { hash: hash_of(m), ..m }
}

/// The meta record in the block at page `id`, where the block is valid.
pub open spec fn meta_in(buf: Seq<u8>, id: u64, pagesize: u64, version: u32) -> Option<Meta> {
    match page::block_of(buf, id, pagesize, version) {
        Err(_) => None,
        Ok(b) => if page::header_of(b).page_type == TYPE_META {
            Some(meta_of(b.subrange(DATA_OFFSET as int, DATA_OFFSET + META_SIZE)))
        } else {
            None
        },
    }
}

/// Reads the meta record in the block at page `id`.
pub fn read_meta(buf: &[u8], id: u64, pagesize: u64, version: u32) -> (r: Option<Meta>)
    ensures
        r == meta_in(buf@, id, pagesize, version),
{
    match Page::validate_version(buf, id, pagesize, version) {
        Err(_) => None,
        Ok(p) => {
            if p.header().page_type == TYPE_META {
                Some(Meta::from_bytes(p.meta_bytes()))
            } else {
                None
            }
        },
    }
}

/// The meta record at page `id`, where it is one of this format and of this
/// page size. A record says itself in which version of the format its page is
/// to be checked.
pub open spec fn valid_meta(buf: Seq<u8>, id: u64, pagesize: u64) -> Option<Meta> {
    match meta_in(buf, id, pagesize, 1) {
        None => None,
        Some(m) => if m.hash == hash_of(m) && m.magic == MAGIC_VALUE && 1 <= m.version
            <= FORMAT_VERSION && m.pagesize == pagesize && page::block_of(
            buf,
            id,
            pagesize,
            m.version,
        ) is Ok {
            Some(m)
        } else {
            None
        },
    }
}

/// Reads the meta record at page `id`, where it is one of this format and of
/// this page size.
pub fn check_meta(buf: &[u8], id: u64, pagesize: u64) -> (r: Option<Meta>)
    ensures
        r == valid_meta(buf@, id, pagesize),
{
    match read_meta(buf, id, pagesize, 1) {
        None => None,
        Some(m) => {
            if m.valid() && m.magic == MAGIC_VALUE && 1 <= m.version && m.version
                <= FORMAT_VERSION && m.pagesize == pagesize {
                match Page::validate_version(buf, id, pagesize, m.version) {
                    Ok(_) => Some(m),
                    Err(_) => None,
                }
            } else {
                None
            }
        },
    }
}

/// The meta record that counts: the one of the later transaction.
pub open spec fn current_meta(buf: Seq<u8>, pagesize: u64) -> Result<Meta, Error> {
    match (valid_meta(buf, 0, pagesize), valid_meta(buf, 1, pagesize)) {
        (Some(a), Some(b)) => if a.tx_id > b.tx_id {
            Ok(a)
        } else {
            Ok(b)
        },
        (Some(a), None) => Ok(a),
        (None, Some(b)) => Ok(b),
        (None, None) => Err(Error::InvalidDB(Fault::Text("no valid metadata pages"))),
    }
}

/// Picks the meta record that counts.
pub fn select_meta(buf: &[u8], pagesize: u64) -> (r: Result<Meta, Error>)
    ensures
        r == current_meta(buf@, pagesize),
{
    let first: Option<Meta> = check_meta(buf, 0, pagesize);
    let second: Option<Meta> = check_meta(buf, 1, pagesize);
    match (first, second) {
        (Some(a), Some(b)) => {
            if a.tx_id > b.tx_id {
                Ok(a)
            } else {
                Ok(b)
            }
        },
        (Some(a), None) => Ok(a),
        (None, Some(b)) => Ok(b),
        (None, None) => Err(Error::InvalidDB(Fault::Text("no valid metadata pages"))),
    }
}

/// A page with a meta record, before it is sealed.
pub open spec fn meta_page(m: Meta, id: u64, pagesize: int) -> Seq<u8> {
    let filled = node::block_header(id, TYPE_META, 0, 0) + meta_record(m);
    filled + bytes::zeros((pagesize - filled.len()) as nat)
}

/// Lays out a page with a meta record, and seals it if the record's version of
/// the format asks for it.
pub fn write_meta_page(m: Meta, id: u64, pagesize: usize) -> (r: Vec<u8>)
    requires
        pagesize >= 1024,
    ensures
        r@ == page::sealed_in(meta_page(m, id, pagesize as int), m.version),
        r@.len() == pagesize,
{
    let mut out: Vec<u8> = Vec::new();
    push_block_header(&mut out, id, TYPE_META, 0, 0);
    append(&mut out, &m.to_bytes());
    proof {
        node::lemma_block_header_len(id, TYPE_META, 0, 0);
        assert(out@ =~= node::block_header(id, TYPE_META, 0, 0) + meta_record(m));
    }
    let missing: usize = pagesize - out.len();
    crate::page::push_zeros(&mut out, missing);
    page::seal_in(&mut out, m.version);
    out
}

/// The meta record a transaction publishes: in the page that the current one
/// does not stand in, in the version of the format that the file has.
pub open spec fn published(m: Meta) -> Meta {
    hashed(
        Meta {
            meta_page: if m.meta_page == 0 {
                1
            } else {
                0
            },
            ..m
        },
    )
}

/// Makes the meta record a transaction publishes.
pub fn publish(m: Meta) -> (r: Meta)
    ensures
        r == published(m),
{
    let mut next: Meta = m;
    next.meta_page = if m.meta_page == 0 {
        1
    } else {
        0
    };
    next.hash = next.hash_self();
    next
}

/// A sealed block that begins with some bytes still does.
proof fn lemma_sealed_front(whole: Seq<u8>, b: Seq<u8>, filled: Seq<u8>)
    requires
        b == page::sealed(whole),
        b.len() == whole.len() >= CHECKSUM_SIZE + filled.len(),
        filled.is_prefix_of(whole),
    ensures
        filled.is_prefix_of(b),
        b.take(b.len() - CHECKSUM_SIZE) == whole.take(b.len() - CHECKSUM_SIZE),
        b.skip(b.len() - CHECKSUM_SIZE) == page::sha3_256(b.take(b.len() - CHECKSUM_SIZE)),
{
    let limit = b.len() - CHECKSUM_SIZE;
    let sum = page::sha3_256(whole.take(limit));
    assert(b.len() == limit + sum.len());
    assert(b.take(limit) =~= whole.take(limit));
    assert(b.skip(limit) =~= sum);
    let n = filled.len() as int;
    assert(b.take(n) =~= filled) by {
        assert(whole.take(n) =~= filled);
        assert(b.take(limit).take(n) =~= b.take(n));
        assert(whole.take(limit).take(n) =~= whole.take(n));
    }
}

/// Whether the block at page `id` is one page.
pub open spec fn one_page(buf: Seq<u8>, id: u64, pagesize: u64) -> bool {
    page::header_of(buf.skip(id * pagesize)).overflow == 0
}

/// A page with a meta record is a valid block, in the record's version of the
/// format and in the first, and reads back.
proof fn lemma_meta_page_reads(buf: Seq<u8>, m: Meta, id: u64, pagesize: u64, version: u32)
    requires
        pagesize >= 1024,
        version == 1 || version == m.version,
        id * pagesize + pagesize <= buf.len() <= usize::MAX,
        ({
            let b = buf.subrange(id * pagesize, id * pagesize + pagesize);
            b == page::sealed_in(meta_page(m, id, pagesize as int), m.version)
        }),
    ensures
        page::block_of(buf, id, pagesize, version) is Ok,
        meta_in(buf, id, pagesize, version) == Some(m),
        one_page(buf, id, pagesize),
{
    let ps = pagesize as int;
    let offset = id * pagesize;
    assert(offset >= 0) by (nonlinear_arith)
        requires
            offset == id * pagesize,
            id >= 0,
            pagesize >= 0,
    ;
    let b = buf.subrange(offset, offset + ps);
    let head = node::block_header(id, TYPE_META, 0, 0);
    let filled = head + meta_record(m);
    let whole = meta_page(m, id, ps);
    node::lemma_block_header_len(id, TYPE_META, 0, 0);
    lemma_record_len(m);
    assert(whole.len() == ps);
    assert(whole.take(filled.len() as int) =~= filled);
    assert(filled.is_prefix_of(whole));
    if m.version != 1 {
        lemma_sealed_front(whole, b, filled);
    }
    assert(b.subrange(0, 32) =~= head) by {
        assert(b.take(filled.len() as int).subrange(0, 32) =~= b.subrange(0, 32));
    }
    node::lemma_header_reads(b, id, TYPE_META, 0, 0);
    let rest = buf.skip(offset);
    assert(rest.take(ps) =~= b);
    page::lemma_header_local(rest, b);
    assert(b.subrange(32, 104) =~= meta_record(m)) by {
        assert(b.take(filled.len() as int).subrange(32, 104) =~= b.subrange(32, 104));
    }
    law_meta_record_round_trip(m);
    assert(page::block_of(buf, id, pagesize, version) == Ok::<Seq<u8>, Error>(b));
    assert(one_page(buf, id, pagesize));
}

/// A published meta record that stands in its page is valid, and counts from
/// then on: no other record is of a later transaction.
pub proof fn law_published_meta_counts(buf: Seq<u8>, before: Meta, m: Meta, pagesize: u64)
    requires
        pagesize >= 1024,
        m.magic == MAGIC_VALUE,
        m.pagesize == pagesize,
        2 * pagesize <= buf.len() <= usize::MAX,
        ({
            let id = published(m).meta_page as u64;
            let b = buf.subrange(id * pagesize, id * pagesize + pagesize);
            b == page::sealed_in(meta_page(published(m), id, pagesize as int), m.version)
        }),
        1 <= m.version <= FORMAT_VERSION,
        m.tx_id > before.tx_id,
        match valid_meta(buf, m.meta_page as u64, pagesize) {
            None => true,
            Some(other) => other.tx_id <= before.tx_id,
        },
        m.meta_page <= 1,
    ensures
        valid_meta(buf, published(m).meta_page as u64, pagesize) == Some(published(m)),
        current_meta(buf, pagesize) == Ok::<Meta, Error>(published(m)),
        one_page(buf, published(m).meta_page as u64, pagesize),
{
    let p = published(m);
    let id = p.meta_page as u64;
    assert(id * pagesize + pagesize <= 2 * pagesize) by (nonlinear_arith)
        requires
            id <= 1,
            pagesize >= 0,
    ;
    lemma_meta_page_reads(buf, p, id, pagesize, 1);
    lemma_meta_page_reads(buf, p, id, pagesize, m.version);
    let bare = Meta { meta_page: p.meta_page, ..m };
    assert(hashed_fields(p) == hashed_fields(bare));
    assert(p.hash == hash_of(p));
}

/// The meta record of a new file, in page `id`.
pub open spec fn first_meta(id: u32, pagesize: u64, version: u32) -> Meta {
    hashed(
        Meta {
            meta_page: id,
            magic: MAGIC_VALUE,
            version,
            pagesize,
            root: BucketMeta { root_page: 3, next_int: 0 },
            num_pages: 4,
            freelist_page: 2,
            tx_id: 0,
            hash: 0,
        },
    )
}

/// An empty page of some type, before it is sealed.
pub open spec fn empty_page(id: u64, page_type: u8, pagesize: int) -> Seq<u8> {
    let head = node::block_header(id, page_type, 0, 0);
    head + bytes::zeros((pagesize - head.len()) as nat)
}

/// One of the first four pages of a new file: two meta pages, an empty freelist,
/// and an empty leaf for the root.
pub open spec fn first_page(id: int, pagesize: u64, version: u32) -> Seq<u8> {
    page::sealed_in(
        if id == 0 || id == 1 {
            meta_page(first_meta(id as u32, pagesize, version), id as u64, pagesize as int)
        } else if id == 2 {
            empty_page(2, TYPE_FREELIST, pagesize as int)
        } else {
            empty_page(3, TYPE_LEAF, pagesize as int)
        },
        version,
    )
}

/// The first four pages of a new file together.
pub open spec fn first_pages(pagesize: u64, version: u32) -> Seq<u8> {
    first_page(0, pagesize, version) + first_page(1, pagesize, version) + first_page(
        2,
        pagesize,
        version,
    ) + first_page(3, pagesize, version)
}

/// Whether a file begins as a new one does.
pub open spec fn begins_new(buf: Seq<u8>, pagesize: u64, version: u32) -> bool {
    &&& 4 * pagesize <= buf.len() <= usize::MAX
    &&& forall|id: int|
        0 <= id < 4 ==> buf.subrange(id * pagesize, id * pagesize + pagesize)
            == #[trigger] first_page(id, pagesize, version)
}

fn first_meta_page(id: u32, pagesize: usize, version: u32) -> (r: Vec<u8>)
    requires
        pagesize >= 1024,
    ensures
        id <= 1 ==> r@ == first_page(id as int, pagesize as u64, version),
        r@.len() == pagesize,
{
    let mut m: Meta = Meta {
        meta_page: id,
        magic: MAGIC_VALUE,
        version,
        pagesize: pagesize as u64,
        root: BucketMeta { root_page: 3, next_int: 0 },
        num_pages: 4,
        freelist_page: 2,
        tx_id: 0,
        hash: 0,
    };
    m.hash = m.hash_self();
    write_meta_page(m, id as u64, pagesize)
}

fn first_empty_page(id: u64, page_type: u8, pagesize: usize, version: u32) -> (r: Vec<u8>)
    requires
        pagesize >= 1024,
    ensures
        r@ == page::sealed_in(empty_page(id, page_type, pagesize as int), version),
        r@.len() == pagesize,
{
    let mut out: Vec<u8> = Vec::new();
    push_block_header(&mut out, id, page_type, 0, 0);
    proof {
        node::lemma_block_header_len(id, page_type, 0, 0);
        assert(out@ =~= node::block_header(id, page_type, 0, 0));
    }
    let missing: usize = pagesize - out.len();
    crate::page::push_zeros(&mut out, missing);
    page::seal_in(&mut out, version);
    out
}

/// Lays out the first pages of a new file.
pub fn initial_pages(pagesize: usize, version: u32) -> (r: Vec<u8>)
    requires
        pagesize >= 1024,
        4 * pagesize <= usize::MAX,
    ensures
        r@ == first_pages(pagesize as u64, version),
        r@.len() == 4 * pagesize,
        begins_new(r@, pagesize as u64, version),
{
    let mut out: Vec<u8> = first_meta_page(0, pagesize, version);
    append(&mut out, &first_meta_page(1, pagesize, version));
    append(&mut out, &first_empty_page(2, TYPE_FREELIST, pagesize, version));
    append(&mut out, &first_empty_page(3, TYPE_LEAF, pagesize, version));
    proof {
        let size = pagesize as u64;
        lemma_four_pages(
            first_page(0, size, version),
            first_page(1, size, version),
            first_page(2, size, version),
            first_page(3, size, version),
            pagesize as int,
        );
        assert forall|id: int| 0 <= id < 4 implies out@.subrange(id * size, id * size + size)
            == #[trigger] first_page(id, size, version) by {
            assert(0 * size == 0 && 1 * size == size && 2 * size == size + size && 3 * size == size
                + size + size);
        }
    }
    out
}

proof fn lemma_four_pages(a: Seq<u8>, b: Seq<u8>, c: Seq<u8>, d: Seq<u8>, n: int)
    requires
        a.len() == n,
        b.len() == n,
        c.len() == n,
        d.len() == n,
    ensures
        (a + b + c + d).subrange(0, n) == a,
        (a + b + c + d).subrange(n, 2 * n) == b,
        (a + b + c + d).subrange(2 * n, 3 * n) == c,
        (a + b + c + d).subrange(3 * n, 4 * n) == d,
{
    assert((a + b + c + d).subrange(0, n) =~= a);
    assert((a + b + c + d).subrange(n, 2 * n) =~= b);
    assert((a + b + c + d).subrange(2 * n, 3 * n) =~= c);
    assert((a + b + c + d).subrange(3 * n, 4 * n) =~= d);
}

/// A file that begins as a new one does has a valid meta record in each of its
/// meta pages, of no transaction yet, and the second counts.
pub proof fn law_new_file_has_meta(buf: Seq<u8>, pagesize: u64, version: u32)
    requires
        pagesize >= 1024,
        1 <= version <= FORMAT_VERSION,
        begins_new(buf, pagesize, version),
    ensures
        valid_meta(buf, 0, pagesize) == Some(first_meta(0, pagesize, version)),
        valid_meta(buf, 1, pagesize) == Some(first_meta(1, pagesize, version)),
        current_meta(buf, pagesize) == Ok::<Meta, Error>(first_meta(1, pagesize, version)),
        one_page(buf, 0, pagesize),
        one_page(buf, 1, pagesize),
{
    assert(buf.subrange(0 * pagesize, 0 * pagesize + pagesize) == first_page(0, pagesize, version));
    assert(buf.subrange(1 * pagesize, 1 * pagesize + pagesize) == first_page(1, pagesize, version));
    lemma_first_meta_valid(buf, 0, pagesize, version);
    lemma_first_meta_valid(buf, 1, pagesize, version);
}

proof fn lemma_first_meta_valid(buf: Seq<u8>, id: u32, pagesize: u64, version: u32)
    requires
        pagesize >= 1024,
        1 <= version <= FORMAT_VERSION,
        id <= 1,
        id * pagesize + pagesize <= buf.len() <= usize::MAX,
        ({
            let b = buf.subrange(id * pagesize, id * pagesize + pagesize);
            b == page::sealed_in(
                meta_page(first_meta(id, pagesize, version), id as u64, pagesize as int),
                version,
            )
        }),
    ensures
        valid_meta(buf, id as u64, pagesize) == Some(first_meta(id, pagesize, version)),
        one_page(buf, id as u64, pagesize),
{
    let m = first_meta(id, pagesize, version);
    lemma_meta_page_reads(buf, m, id as u64, pagesize, 1);
    lemma_meta_page_reads(buf, m, id as u64, pagesize, version);
    assert(hashed_fields(m) == hashed_fields(Meta { hash: 0, ..m }));
}

/// An empty page that stands in a file is a valid block.
pub proof fn lemma_empty_page_reads(
    buf: Seq<u8>,
    id: u64,
    page_type: u8,
    pagesize: u64,
    version: u32,
)
    requires
        pagesize >= 1024,
        page_type == TYPE_FREELIST || page_type == TYPE_LEAF,
        id * pagesize + pagesize <= buf.len() <= usize::MAX,
        buf.subrange(id * pagesize, id * pagesize + pagesize) == page::sealed_in(
            empty_page(id, page_type, pagesize as int),
            version,
        ),
    ensures
        ({
            let b = buf.subrange(id * pagesize, id * pagesize + pagesize);
            &&& page::block_of(buf, id, pagesize, version) == Ok::<Seq<u8>, Error>(b)
            &&& page::header_of(b) == (page::PageHeader { id, page_type, count: 0, overflow: 0 })
        }),
{
    let ps = pagesize as int;
    let offset = id * pagesize;
    assert(offset >= 0) by (nonlinear_arith)
        requires
            offset == id * pagesize,
            id >= 0,
            pagesize >= 0,
    ;
    let b = buf.subrange(offset, offset + ps);
    let head = node::block_header(id, page_type, 0, 0);
    let whole = empty_page(id, page_type, ps);
    node::lemma_block_header_len(id, page_type, 0, 0);
    assert(whole.len() == ps);
    assert(whole.take(head.len() as int) =~= head);
    assert(head.is_prefix_of(whole));
    if version != 1 {
        lemma_sealed_front(whole, b, head);
    }
    assert(b.subrange(0, 32) =~= head) by {
        assert(b.take(head.len() as int).subrange(0, 32) =~= b.subrange(0, 32));
    }
    node::lemma_header_reads(b, id, page_type, 0, 0);
    let rest = buf.skip(offset);
    assert(rest.take(ps) =~= b);
    page::lemma_header_local(rest, b);
    let limit = ps - page::trailer(version);
    assert(page::header_of(b).count == 0);
    assert(page::layout_check(b, limit) == Ok::<(), Error>(()));
    assert(page::header_of(rest).overflow == 0);
    assert((0 + 1) * pagesize == ps);
    assert(page::block_of(buf, id, pagesize, version) == Ok::<Seq<u8>, Error>(b));
}

} // verus!
