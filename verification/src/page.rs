//! Pages of the tree format: the two meta pages, and the nodes of a packed
//! B+ tree, each of which covers one page or more.

use crate::bytes::{
    self, append, push_u32_le, push_u64_le, same, u32_le_at, u64_le_at,
};
use crate::error::Error;
use crate::hash::{self, hash};
use vstd::prelude::*;
use vstd::slice::slice_subrange;

verus! {

pub const NODE_HEADER: usize = 40;

pub const META_VERSION: u32 = 1;

pub const LEAF: u8 = 1;

pub const BRANCH: u8 = 2;

/// `INSPNODE`.
pub open spec fn node_magic() -> Seq<u8> {
    seq![0x49u8, 0x4e, 0x53, 0x50, 0x4e, 0x4f, 0x44, 0x45]
}

/// `INSPMETA`.
pub open spec fn meta_magic() -> Seq<u8> {
    seq![0x49u8, 0x4e, 0x53, 0x50, 0x4d, 0x45, 0x54, 0x41]
}

pub(crate) fn node_magic_bytes() -> (r: [u8; 8])
    ensures
        r@ == node_magic(),
{
    let r: [u8; 8] = [0x49u8, 0x4e, 0x53, 0x50, 0x4e, 0x4f, 0x44, 0x45];
    assert(r@ =~= node_magic());
    r
}

fn meta_magic_bytes() -> (r: [u8; 8])
    ensures
        r@ == meta_magic(),
{
    let r: [u8; 8] = [0x49u8, 0x4e, 0x53, 0x50, 0x4d, 0x45, 0x54, 0x41];
    assert(r@ =~= meta_magic());
    r
}

/// A key and its value.
#[derive(Debug)]
pub struct Record {
    pub key: Vec<u8>,
    pub value: Vec<u8>,
}

/// A record by the values it holds.
#[verifier::ext_equal]
pub struct RecordView {
    pub key: Seq<u8>,
    pub value: Seq<u8>,
}

impl View for Record {
    type V = RecordView;

    open spec fn view(&self) -> RecordView {
        RecordView { key: self.key@, value: self.value@ }
    }
}

/// A part of the file.
#[derive(Clone, Copy, Debug, PartialEq, Eq, Structural)]
pub struct Slice {
    pub offset: usize,
    pub len: usize,
}

impl Slice {
    /// What stands in that part of `s`.
    pub open spec fn of(self, s: Seq<u8>) -> Seq<u8> {
        s.subrange(self.offset as int, self.offset + self.len)
    }

    /// Whether the part lies inside a file of `len` bytes.
    pub open spec fn within(self, len: int) -> bool {
        self.offset + self.len <= len
    }

    /// Reads the part out of `image`.
    pub fn get<'a>(&self, image: &'a [u8]) -> (r: &'a [u8])
        requires
            self.within(image@.len() as int),
        ensures
            r@ == self.of(image@),
    {
        let len: usize = image.len();
        slice_subrange(image, self.offset, self.offset + self.len)
    }
}

/// What a meta page says of the database.
#[derive(Clone, Copy, Debug, PartialEq, Eq, Structural)]
pub struct Meta {
    pub page_size: u32,
    pub txid: u64,
    pub root: u64,
    pub high_water: u64,
    pub freelist: u64,
}

/// Whether `n` is a power of two.
pub open spec fn power_of_two(n: nat) -> bool
    decreases n,
{
    n == 1 || (n > 1 && n % 2 == 0 && power_of_two(n / 2))
}

pub(crate) fn is_power_of_two(n: usize) -> (r: bool)
    ensures
        r == power_of_two(n as nat),
{
    let mut left: usize = n;
    while left > 1 && left % 2 == 0
        invariant
            power_of_two(n as nat) == power_of_two(left as nat),
        decreases left,
    {
        left = left / 2;
    }
    left == 1
}

/// The checksummed part of a meta page.
pub open spec fn meta_head(m: Meta) -> Seq<u8> {
    meta_magic() + bytes::le_of(META_VERSION as nat, 4) + bytes::le_of(m.page_size as nat, 4)
        + bytes::le_of(m.txid as nat, 8) + bytes::le_of(m.root as nat, 8) + bytes::le_of(
        m.high_water as nat,
        8,
    ) + bytes::le_of(m.freelist as nat, 8)
}

/// A meta page as it is written.
pub open spec fn meta_bytes(m: Meta) -> Seq<u8> {
    meta_head(m) + bytes::le_of(hash::fnv1a(meta_head(m)) as nat, 8) + bytes::zeros(
        (m.page_size - 56) as nat,
    )
}

/// What a meta page reads as.
pub open spec fn meta_of(s: Seq<u8>) -> Result<Meta, Error> {
    let meta = Meta {
        page_size: bytes::le_at(s, 12, 4) as u32,
        txid: bytes::le_at(s, 16, 8) as u64,
        root: bytes::le_at(s, 24, 8) as u64,
        high_water: bytes::le_at(s, 32, 8) as u64,
        freelist: bytes::le_at(s, 40, 8) as u64,
    };
    if s.len() < 56 || s.subrange(0, 8) != meta_magic() {
        Err(Error::Corrupt("invalid meta page"))
    } else if bytes::le_at(s, 8, 4) != META_VERSION {
        Err(Error::Corrupt("unsupported page format"))
    } else if hash::fnv1a(s.subrange(0, 48)) != bytes::le_at(s, 48, 8) {
        Err(Error::Corrupt("meta checksum mismatch"))
    } else if meta.page_size < 1024 || !power_of_two(meta.page_size as nat) {
        Err(Error::Corrupt("invalid page size"))
    } else {
        Ok(meta)
    }
}

/// Appends `n` zero bytes.
pub(crate) fn push_zeros(out: &mut Vec<u8>, n: usize)
    ensures
        final(out)@ == old(out)@ + bytes::zeros(n as nat),
{
    let mut i: usize = 0;
    let ghost start = out@;
    while i < n
        invariant
            i <= n,
            out@ == start + bytes::zeros(i as nat),
        decreases n - i,
    {
        let ghost was = out@;
        out.push(0);
        i = i + 1;
        assert(out@ =~= start + bytes::zeros(i as nat));
    }
}

impl Meta {
    /// Lays a meta page out.
    pub fn encode(self) -> (r: Result<Vec<u8>, Error>)
        ensures
            match r {
                Ok(page) => self.page_size >= 1024 && page@ == meta_bytes(self) && page@.len()
                    == self.page_size,
                Err(e) => self.page_size < 1024 && e == Error::Corrupt("page size is too small"),
            },
    {
        if self.page_size < 1024 {
            return Err(Error::Corrupt("page size is too small"));
        }
        let mut page: Vec<u8> = Vec::new();
        append(&mut page, &meta_magic_bytes());
        push_u32_le(&mut page, META_VERSION);
        push_u32_le(&mut page, self.page_size);
        push_u64_le(&mut page, self.txid);
        push_u64_le(&mut page, self.root);
        push_u64_le(&mut page, self.high_water);
        push_u64_le(&mut page, self.freelist);
        assert(page@ =~= meta_head(self));
        let sum: u64 = hash(&page);
        push_u64_le(&mut page, sum);
        push_zeros(&mut page, self.page_size as usize - 56);
        proof {
            lemma_meta_head_len(self);
            bytes::lemma_le_of_len(sum as nat, 8);
        }
        assert(page@ =~= meta_bytes(self));
        Ok(page)
    }

    /// Reads a meta page.
    pub fn decode(page: &[u8]) -> (r: Result<Meta, Error>)
        ensures
            r == meta_of(page@),
    {
        if page.len() < 56 {
            return Err(Error::Corrupt("invalid meta page"));
        }
        if !same(slice_subrange(page, 0, 8), &meta_magic_bytes()) {
            return Err(Error::Corrupt("invalid meta page"));
        }
        if u32_le_at(page, 8) != META_VERSION {
            return Err(Error::Corrupt("unsupported page format"));
        }
        if hash(slice_subrange(page, 0, 48)) != u64_le_at(page, 48) {
            return Err(Error::Corrupt("meta checksum mismatch"));
        }
        let meta: Meta = Meta {
            page_size: u32_le_at(page, 12),
            txid: u64_le_at(page, 16),
            root: u64_le_at(page, 24),
            high_water: u64_le_at(page, 32),
            freelist: u64_le_at(page, 40),
        };
        if meta.page_size < 1024 || !is_power_of_two(meta.page_size as usize) {
            return Err(Error::Corrupt("invalid page size"));
        }
        Ok(meta)
    }
}

proof fn lemma_meta_head_len(m: Meta)
    ensures
        meta_head(m).len() == 48,
{
    bytes::lemma_le_of_len(META_VERSION as nat, 4);
    bytes::lemma_le_of_len(m.page_size as nat, 4);
    bytes::lemma_le_of_len(m.txid as nat, 8);
    bytes::lemma_le_of_len(m.root as nat, 8);
    bytes::lemma_le_of_len(m.high_water as nat, 8);
    bytes::lemma_le_of_len(m.freelist as nat, 8);
}

/// A meta page fills its page.
pub proof fn lemma_meta_len(m: Meta)
    requires
        m.page_size >= 1024,
    ensures
        meta_bytes(m).len() == m.page_size,
{
    lemma_meta_head_len(m);
    bytes::lemma_le_of_len(hash::fnv1a(meta_head(m)) as nat, 8);
}

/// Every valid meta page reads back as it was written.
pub proof fn law_meta_round_trip(m: Meta)
    requires
        m.page_size >= 1024,
        power_of_two(m.page_size as nat),
    ensures
        meta_of(meta_bytes(m)) == Ok::<Meta, Error>(m),
{
    let s = meta_bytes(m);
    let h = meta_head(m);
    let sum = hash::fnv1a(h);
    lemma_meta_head_len(m);
    bytes::lemma_pow256_widths();
    bytes::lemma_le_of_len(META_VERSION as nat, 4);
    bytes::lemma_le_of_len(m.page_size as nat, 4);
    bytes::lemma_le_of_len(m.txid as nat, 8);
    bytes::lemma_le_of_len(m.root as nat, 8);
    bytes::lemma_le_of_len(m.high_water as nat, 8);
    bytes::lemma_le_of_len(m.freelist as nat, 8);
    bytes::lemma_le_of_len(sum as nat, 8);
    assert(s.subrange(0, 8) =~= meta_magic());
    assert(s.subrange(0, 48) =~= h);
    assert(s.subrange(8, 12) =~= bytes::le_of(META_VERSION as nat, 4));
    assert(s.subrange(12, 16) =~= bytes::le_of(m.page_size as nat, 4));
    assert(s.subrange(16, 24) =~= bytes::le_of(m.txid as nat, 8));
    assert(s.subrange(24, 32) =~= bytes::le_of(m.root as nat, 8));
    assert(s.subrange(32, 40) =~= bytes::le_of(m.high_water as nat, 8));
    assert(s.subrange(40, 48) =~= bytes::le_of(m.freelist as nat, 8));
    assert(s.subrange(48, 56) =~= bytes::le_of(sum as nat, 8));
    bytes::lemma_le_field(s, 8, META_VERSION as nat, 4);
    bytes::lemma_le_field(s, 12, m.page_size as nat, 4);
    bytes::lemma_le_field(s, 16, m.txid as nat, 8);
    bytes::lemma_le_field(s, 24, m.root as nat, 8);
    bytes::lemma_le_field(s, 32, m.high_water as nat, 8);
    bytes::lemma_le_field(s, 40, m.freelist as nat, 8);
    bytes::lemma_le_field(s, 48, sum as nat, 8);
}

/// Nothing behind the first 56 bytes of a meta page matters.
pub proof fn law_meta_reads_its_front(m: Meta, s: Seq<u8>)
    requires
        m.page_size >= 1024,
        power_of_two(m.page_size as nat),
        s.len() >= 56,
        s.take(56) == meta_bytes(m).take(56),
    ensures
        meta_of(s) == Ok::<Meta, Error>(m),
{
    law_meta_round_trip(m);
    lemma_meta_len(m);
    let e = meta_bytes(m);
    assert forall|i: int, j: int| 0 <= i <= j <= 56 implies #[trigger] s.subrange(i, j)
        == e.subrange(i, j) by {
        assert(s.take(56).subrange(i, j) =~= s.subrange(i, j));
        assert(e.take(56).subrange(i, j) =~= e.subrange(i, j));
    }
    assert(s.subrange(0, 8) == e.subrange(0, 8));
    assert(s.subrange(0, 48) == e.subrange(0, 48));
    assert(s.subrange(8, 12) == e.subrange(8, 12));
    assert(s.subrange(12, 16) == e.subrange(12, 16));
    assert(s.subrange(16, 24) == e.subrange(16, 24));
    assert(s.subrange(24, 32) == e.subrange(24, 32));
    assert(s.subrange(32, 40) == e.subrange(32, 40));
    assert(s.subrange(40, 48) == e.subrange(40, 48));
    assert(s.subrange(48, 56) == e.subrange(48, 56));
}

/// A changed byte among the first 56 of a meta page is noticed.
pub proof fn law_damaged_meta_is_noticed(m: Meta, i: int, byte: u8)
    requires
        m.page_size >= 1024,
        0 <= i < 56,
        byte != meta_bytes(m)[i],
    ensures
        meta_of(meta_bytes(m).update(i, byte)) is Err,
{
    lemma_meta_len(m);
    lemma_meta_head_len(m);
    let e = meta_bytes(m);
    let x = e.update(i, byte);
    let h = meta_head(m);
    let sum = hash::fnv1a(h);
    bytes::lemma_le_of_len(sum as nat, 8);
    bytes::lemma_pow256_widths();
    assert(e.subrange(0, 48) =~= h);
    assert(e.subrange(48, 56) =~= bytes::le_of(sum as nat, 8));
    bytes::lemma_le_field(e, 48, sum as nat, 8);
    if i < 48 {
        assert(x.subrange(0, 48) =~= h.update(i, byte));
        assert(x.subrange(48, 56) =~= e.subrange(48, 56));
        hash::law_one_byte_changes_the_hash(hash::FNV_OFFSET, h, i, byte);
    } else {
        assert(x.subrange(0, 48) =~= h);
        let a = e.subrange(48, 56);
        let b = x.subrange(48, 56);
        assert(a[i - 48] != b[i - 48]);
        bytes::lemma_le_inverse(a);
        bytes::lemma_le_inverse(b);
    }
}

/// What the header of a node says; `block` is all the pages it covers.
#[verifier::ext_equal]
pub struct NodeView {
    pub block: Seq<u8>,
    pub kind: u8,
    pub count: nat,
    pub payload_len: nat,
    pub span: nat,
    pub page: u64,
}

/// A decoded node.
pub struct Node<'a> {
    bytes: &'a [u8],
    kind: u8,
    count: usize,
    payload_len: usize,
    span: usize,
    page: u64,
}

impl<'a> View for Node<'a> {
    type V = NodeView;

    closed spec fn view(&self) -> NodeView {
        NodeView {
            block: self.bytes@,
            kind: self.kind,
            count: self.count as nat,
            payload_len: self.payload_len as nat,
            span: self.span as nat,
            page: self.page,
        }
    }
}

/// The node at the front of `s`.
pub open spec fn node_of(s: Seq<u8>, page_size: nat) -> Result<NodeView, Error> {
    let count = bytes::le_at(s, 12, 4);
    let span = bytes::le_at(s, 16, 4);
    let payload_len = bytes::le_at(s, 20, 4);
    let total = (span * page_size) as int;
    if s.len() < NODE_HEADER || s.subrange(0, 8) != node_magic() {
        Err(Error::Corrupt("invalid node page"))
    } else if s[8] != LEAF && s[8] != BRANCH {
        Err(Error::Corrupt("invalid node kind"))
    } else if total > usize::MAX {
        Err(Error::Corrupt("node span overflow"))
    } else if span == 0 || total > s.len() || NODE_HEADER + payload_len > total {
        Err(Error::Corrupt("invalid node span"))
    } else if hash::fnv1a(s.subrange(NODE_HEADER as int, NODE_HEADER + payload_len))
        != bytes::le_at(s, 24, 8) {
        Err(Error::Corrupt("node checksum mismatch"))
    } else {
        Ok(
            NodeView {
                block: s.take(total),
                kind: s[8],
                count,
                payload_len,
                span,
                page: bytes::le_at(s, 32, 8) as u64,
            },
        )
    }
}

/// A result of decoding by the values it holds.
pub open spec fn decoded_view(r: Result<Node<'_>, Error>) -> Result<NodeView, Error> {
    match r {
        Ok(node) => Ok(node@),
        Err(e) => Err(e),
    }
}

/// The leaf record at `cursor` of a node whose payload ends at `end`: where
/// its key and its value stand.
pub open spec fn leaf_slot_at(b: Seq<u8>, cursor: int, end: int) -> Result<(Slice, Slice), Error> {
    let key_len = bytes::le_at(b, cursor, 4);
    let value_len = bytes::le_at(b, cursor + 4, 8);
    let start = cursor + 12;
    if start > b.len() {
        Err(Error::Corrupt("unexpected end of page"))
    } else if value_len > usize::MAX {
        Err(Error::Corrupt("value length overflow"))
    } else if start + key_len + value_len > usize::MAX {
        Err(Error::Corrupt("leaf length overflow"))
    } else if start + key_len + value_len > end {
        Err(Error::Corrupt("leaf record exceeds node"))
    } else {
        Ok(
            (
                Slice { offset: start as usize, len: key_len as usize },
                Slice { offset: (start + key_len) as usize, len: value_len as usize },
            ),
        )
    }
}

/// The `n` leaf records at `cursor`, which must fill the payload up to `end`.
pub open spec fn leaf_slots_at(b: Seq<u8>, cursor: int, n: nat, end: int) -> Result<
    Seq<(Slice, Slice)>,
    Error,
>
    decreases n,
{
    if n == 0 {
        if cursor != end {
            Err(Error::Corrupt("leaf has trailing bytes"))
        } else {
            Ok(Seq::empty())
        }
    } else {
        match leaf_slot_at(b, cursor, end) {
            Err(e) => Err(e),
            Ok(first) => match leaf_slots_at(b, first.1.offset + first.1.len, (n - 1) as nat, end) {
                Err(e) => Err(e),
                Ok(rest) => Ok(seq![first] + rest),
            },
        }
    }
}

/// The branch record at `cursor`: where its key stands, and the child page.
pub open spec fn branch_slot_at(b: Seq<u8>, cursor: int, end: int) -> Result<(Slice, u64), Error> {
    let key_len = bytes::le_at(b, cursor, 4);
    let start = cursor + 12;
    if start > b.len() {
        Err(Error::Corrupt("unexpected end of page"))
    } else if start + key_len > usize::MAX {
        Err(Error::Corrupt("branch length overflow"))
    } else if start + key_len > end {
        Err(Error::Corrupt("branch record exceeds node"))
    } else {
        Ok(
            (
                Slice { offset: start as usize, len: key_len as usize },
                bytes::le_at(b, cursor + 4, 8) as u64,
            ),
        )
    }
}

/// The `n` branch records at `cursor`, which must fill the payload up to
/// `end`.
pub open spec fn branch_slots_at(b: Seq<u8>, cursor: int, n: nat, end: int) -> Result<
    Seq<(Slice, u64)>,
    Error,
>
    decreases n,
{
    if n == 0 {
        if cursor != end {
            Err(Error::Corrupt("branch has trailing bytes"))
        } else {
            Ok(Seq::empty())
        }
    } else {
        match branch_slot_at(b, cursor, end) {
            Err(e) => Err(e),
            Ok(first) => match branch_slots_at(
                b,
                first.0.offset + first.0.len,
                (n - 1) as nat,
                end,
            ) {
                Err(e) => Err(e),
                Ok(rest) => Ok(seq![first] + rest),
            },
        }
    }
}

impl NodeView {
    /// Where the payload ends.
    pub open spec fn end(self) -> int {
        NODE_HEADER + self.payload_len
    }

    /// Where the keys and values of a leaf stand.
    pub open spec fn leaf_slots(self) -> Result<Seq<(Slice, Slice)>, Error> {
        if self.kind != LEAF {
            Err(Error::Corrupt("expected leaf node"))
        } else {
            leaf_slots_at(self.block, NODE_HEADER as int, self.count, self.end())
        }
    }

    /// Where the keys of a branch stand, each with its child page.
    pub open spec fn branch_slots(self) -> Result<Seq<(Slice, u64)>, Error> {
        if self.kind != BRANCH {
            Err(Error::Corrupt("expected branch node"))
        } else {
            branch_slots_at(self.block, NODE_HEADER as int, self.count, self.end())
        }
    }
}

/// `acc` before what `rest` holds.
pub open spec fn joined<T>(acc: Seq<T>, rest: Result<Seq<T>, Error>) -> Result<Seq<T>, Error> {
    match rest {
        Err(e) => Err(e),
        Ok(tail) => Ok(acc + tail),
    }
}

/// A result with a list by the list it holds.
pub open spec fn listed<T>(r: Result<Vec<T>, Error>) -> Result<Seq<T>, Error> {
    match r {
        Ok(v) => Ok(v@),
        Err(e) => Err(e),
    }
}

impl<'a> Node<'a> {
    #[verifier::type_invariant]
    closed spec fn inv(self) -> bool {
        NODE_HEADER + self.payload_len <= self.bytes@.len() <= usize::MAX
    }

    /// Decodes the node at the front of `bytes`.
    pub fn decode(bytes: &'a [u8], page_size: usize) -> (r: Result<Node<'a>, Error>)
        ensures
            decoded_view(r) == node_of(bytes@, page_size as nat),
    {
        if bytes.len() < NODE_HEADER {
            return Err(Error::Corrupt("invalid node page"));
        }
        if !same(slice_subrange(bytes, 0, 8), &node_magic_bytes()) {
            return Err(Error::Corrupt("invalid node page"));
        }
        let kind: u8 = bytes[8];
        if kind != LEAF && kind != BRANCH {
            return Err(Error::Corrupt("invalid node kind"));
        }
        let count: usize = u32_le_at(bytes, 12) as usize;
        let span: usize = u32_le_at(bytes, 16) as usize;
        let payload_len: usize = u32_le_at(bytes, 20) as usize;
        let page: u64 = u64_le_at(bytes, 32);
        let total: usize = match span.checked_mul(page_size) {
            Some(n) => n,
            None => return Err(Error::Corrupt("node span overflow")),
        };
        if span == 0 || total > bytes.len() || NODE_HEADER as u64 + payload_len as u64
            > total as u64 {
            return Err(Error::Corrupt("invalid node span"));
        }
        if hash(slice_subrange(bytes, NODE_HEADER, NODE_HEADER + payload_len)) != u64_le_at(
            bytes,
            24,
        ) {
            return Err(Error::Corrupt("node checksum mismatch"));
        }
        Ok(
            Node {
                bytes: slice_subrange(bytes, 0, total),
                kind,
                count,
                payload_len,
                span,
                page,
            },
        )
    }

    /// The page the node says it stands at.
    pub fn page(&self) -> (r: u64)
        ensures
            r == self@.page,
    {
        self.page
    }

    /// How many pages the node covers.
    pub fn span(&self) -> (r: usize)
        ensures
            r == self@.span,
    {
        self.span
    }

    /// Whether the node is a leaf.
    pub fn is_leaf(&self) -> (r: bool)
        ensures
            r == (self@.kind == LEAF),
    {
        self.kind == LEAF
    }

    /// Where the keys and values of a leaf stand in the node.
    pub fn leaf_slots(&self) -> (r: Result<Vec<(Slice, Slice)>, Error>)
        ensures
            listed(r) == self@.leaf_slots(),
            r is Ok ==> forall|i: int|
                0 <= i < r->Ok_0@.len() ==> (#[trigger] r->Ok_0@[i]).0.within(
                    self@.block.len() as int,
                ) && r->Ok_0@[i].1.within(self@.block.len() as int),
    {
        proof {
            use_type_invariant(&*self);
        }
        if self.kind != LEAF {
            return Err(Error::Corrupt("expected leaf node"));
        }
        let len: usize = self.bytes.len();
        let end: usize = NODE_HEADER + self.payload_len;
        let mut cursor: usize = NODE_HEADER;
        let mut slots: Vec<(Slice, Slice)> = Vec::new();
        let mut i: usize = 0;
        let ghost all = self@.leaf_slots();
        proof {
            if let Ok(tail) = all {
                assert(slots@ + tail =~= tail);
            }
        }
        while i < self.count
            invariant
                i <= self.count,
                cursor <= end <= len == self.bytes@.len(),
                end == NODE_HEADER + self.payload_len,
                self@.block == self.bytes@,
                self@.kind == LEAF,
                all == self@.leaf_slots(),
                all == joined(
                    slots@,
                    leaf_slots_at(
                        self.bytes@,
                        cursor as int,
                        (self.count - i) as nat,
                        end as int,
                    ),
                ),
                forall|k: int|
                    0 <= k < slots@.len() ==> (#[trigger] slots@[k]).0.within(len as int)
                        && slots@[k].1.within(len as int),
            decreases self.count - i,
        {
            if len - cursor < 12 {
                return Err(Error::Corrupt("unexpected end of page"));
            }
            let key_len: usize = u32_le_at(self.bytes, cursor) as usize;
            let declared: u64 = u64_le_at(self.bytes, cursor + 4);
            if declared > usize::MAX as u64 {
                return Err(Error::Corrupt("value length overflow"));
            }
            let value_len: usize = declared as usize;
            let start: usize = cursor + 12;
            let key_end: usize = match start.checked_add(key_len) {
                Some(n) => n,
                None => return Err(Error::Corrupt("leaf length overflow")),
            };
            let value_end: usize = match key_end.checked_add(value_len) {
                Some(n) => n,
                None => return Err(Error::Corrupt("leaf length overflow")),
            };
            if value_end > end {
                return Err(Error::Corrupt("leaf record exceeds node"));
            }
            let slot: (Slice, Slice) = (
                Slice { offset: start, len: key_len },
                Slice { offset: key_end, len: value_len },
            );
            let ghost acc = slots@;
            slots.push(slot);
            i = i + 1;
            cursor = value_end;
            proof {
                if let Ok(tail) = leaf_slots_at(
                    self.bytes@,
                    cursor as int,
                    (self.count - i) as nat,
                    end as int,
                ) {
                    assert(acc + (seq![slot] + tail) =~= slots@ + tail);
                }
            }
        }
        if cursor != end {
            return Err(Error::Corrupt("leaf has trailing bytes"));
        }
        assert(slots@ + Seq::<(Slice, Slice)>::empty() =~= slots@);
        Ok(slots)
    }

    /// Where the keys of a branch stand in the node, each with its child page.
    pub fn branch_slots(&self) -> (r: Result<Vec<(Slice, u64)>, Error>)
        ensures
            listed(r) == self@.branch_slots(),
            r is Ok ==> forall|i: int|
                0 <= i < r->Ok_0@.len() ==> (#[trigger] r->Ok_0@[i]).0.within(
                    self@.block.len() as int,
                ),
    {
        proof {
            use_type_invariant(&*self);
        }
        if self.kind != BRANCH {
            return Err(Error::Corrupt("expected branch node"));
        }
        let len: usize = self.bytes.len();
        let end: usize = NODE_HEADER + self.payload_len;
        let mut cursor: usize = NODE_HEADER;
        let mut slots: Vec<(Slice, u64)> = Vec::new();
        let mut i: usize = 0;
        let ghost all = self@.branch_slots();
        proof {
            if let Ok(tail) = all {
                assert(slots@ + tail =~= tail);
            }
        }
        while i < self.count
            invariant
                i <= self.count,
                cursor <= end <= len == self.bytes@.len(),
                end == NODE_HEADER + self.payload_len,
                self@.block == self.bytes@,
                self@.kind == BRANCH,
                all == self@.branch_slots(),
                all == joined(
                    slots@,
                    branch_slots_at(
                        self.bytes@,
                        cursor as int,
                        (self.count - i) as nat,
                        end as int,
                    ),
                ),
                forall|k: int|
                    0 <= k < slots@.len() ==> (#[trigger] slots@[k]).0.within(len as int),
            decreases self.count - i,
        {
            if len - cursor < 12 {
                return Err(Error::Corrupt("unexpected end of page"));
            }
            let key_len: usize = u32_le_at(self.bytes, cursor) as usize;
            let child: u64 = u64_le_at(self.bytes, cursor + 4);
            let start: usize = cursor + 12;
            let key_end: usize = match start.checked_add(key_len) {
                Some(n) => n,
                None => return Err(Error::Corrupt("branch length overflow")),
            };
            if key_end > end {
                return Err(Error::Corrupt("branch record exceeds node"));
            }
            let slot: (Slice, u64) = (Slice { offset: start, len: key_len }, child);
            let ghost acc = slots@;
            slots.push(slot);
            i = i + 1;
            cursor = key_end;
            proof {
                if let Ok(tail) = branch_slots_at(
                    self.bytes@,
                    cursor as int,
                    (self.count - i) as nat,
                    end as int,
                ) {
                    assert(acc + (seq![slot] + tail) =~= slots@ + tail);
                }
            }
        }
        if cursor != end {
            return Err(Error::Corrupt("branch has trailing bytes"));
        }
        assert(slots@ + Seq::<(Slice, u64)>::empty() =~= slots@);
        Ok(slots)
    }

    /// The keys and values of a leaf.
    pub fn leaf_records(&self) -> (r: Result<Vec<(&'a [u8], &'a [u8])>, Error>)
        ensures
            match (r, self@.leaf_slots()) {
                (Ok(v), Ok(slots)) => v@.len() == slots.len() && forall|i: int|
                    0 <= i < v@.len() ==> (#[trigger] v@[i]).0@ == slots[i].0.of(self@.block)
                        && v@[i].1@ == slots[i].1.of(self@.block),
                (Err(e), Err(f)) => e == f,
                _ => false,
            },
    {
        let slots: Vec<(Slice, Slice)> = match self.leaf_slots() {
            Ok(slots) => slots,
            Err(e) => return Err(e),
        };
        let mut records: Vec<(&'a [u8], &'a [u8])> = Vec::new();
        let mut i: usize = 0;
        while i < slots.len()
            invariant
                i <= slots@.len(),
                records@.len() == i,
                self@.block == self.bytes@,
                forall|k: int|
                    0 <= k < slots@.len() ==> (#[trigger] slots@[k]).0.within(
                        self.bytes@.len() as int,
                    ) && slots@[k].1.within(self.bytes@.len() as int),
                forall|k: int|
                    0 <= k < i ==> (#[trigger] records@[k]).0@ == slots@[k].0.of(self.bytes@)
                        && records@[k].1@ == slots@[k].1.of(self.bytes@),
            decreases slots@.len() - i,
        {
            records.push((slots[i].0.get(self.bytes), slots[i].1.get(self.bytes)));
            i = i + 1;
        }
        Ok(records)
    }

    /// The keys of a branch, each with its child page.
    pub fn branches(&self) -> (r: Result<Vec<(&'a [u8], u64)>, Error>)
        ensures
            match (r, self@.branch_slots()) {
                (Ok(v), Ok(slots)) => v@.len() == slots.len() && forall|i: int|
                    0 <= i < v@.len() ==> (#[trigger] v@[i]).0@ == slots[i].0.of(self@.block)
                        && v@[i].1 == slots[i].1,
                (Err(e), Err(f)) => e == f,
                _ => false,
            },
    {
        let slots: Vec<(Slice, u64)> = match self.branch_slots() {
            Ok(slots) => slots,
            Err(e) => return Err(e),
        };
        let mut records: Vec<(&'a [u8], u64)> = Vec::new();
        let mut i: usize = 0;
        while i < slots.len()
            invariant
                i <= slots@.len(),
                records@.len() == i,
                self@.block == self.bytes@,
                forall|k: int|
                    0 <= k < slots@.len() ==> (#[trigger] slots@[k]).0.within(
                        self.bytes@.len() as int,
                    ),
                forall|k: int|
                    0 <= k < i ==> (#[trigger] records@[k]).0@ == slots@[k].0.of(self.bytes@)
                        && records@[k].1 == slots@[k].1,
            decreases slots@.len() - i,
        {
            records.push((slots[i].0.get(self.bytes), slots[i].1));
            i = i + 1;
        }
        Ok(records)
    }
}

} // verus!
