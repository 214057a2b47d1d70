//! Page blocks: a header, elements with the bytes they point at, and a
//! checksum at the end.

use crate::bytes::{self, append, same, u64_le_at};
use crate::error::{Error, Fault};
use sha3::{Digest, Sha3_256};
use vstd::prelude::*;
use vstd::slice::slice_subrange;

verus! {

/// The version of the format that new pages are written in. Version one has
/// no checksums.
pub const FORMAT_VERSION: u32 = 2;

/// How many bytes a checksum takes.
pub const CHECKSUM_SIZE: usize = 32;

/// How many bytes a block's header takes up to its data.
pub const DATA_OFFSET: usize = 32;

/// How many bytes a block has at least, but for its checksum.
pub const HEADER_SIZE: usize = 40;

pub const META_SIZE: usize = 72;

pub const RETIRED_SIZE: usize = 16;

pub const BRANCH_SIZE: usize = 24;

pub const LEAF_SIZE: usize = 32;

pub const TYPE_BRANCH: u8 = 1;

pub const TYPE_LEAF: u8 = 2;

pub const TYPE_META: u8 = 3;

pub const TYPE_FREELIST: u8 = 4;

/// A leaf element that holds a value.
pub const NODE_DATA: u8 = 0;

/// A leaf element that holds a bucket.
pub const NODE_BUCKET: u8 = 1;

/// What `Sha3_256::digest` returns for `data`.
pub uninterp spec fn sha3_256(data: Seq<u8>) -> Seq<u8>;

/// `sha3::Sha3_256::digest`: the SHA3-256 hash of a byte string, which has 32
/// bytes.
#[verifier::external_body]
fn digest(data: &[u8]) -> (r: Vec<u8>)
    ensures
        r@ == sha3_256(data@),
        r@.len() == CHECKSUM_SIZE,
{
    Sha3_256::digest(data).to_vec()
}

/// The header of a block.
#[derive(Clone, Copy, Debug, PartialEq, Eq, Structural)]
pub struct PageHeader {
    /// The number of the block's first page.
    pub id: u64,
    pub page_type: u8,
    /// How many elements the block holds.
    pub count: u64,
    /// How many pages the block covers beyond the first.
    pub overflow: u64,
}

/// The header at the front of a block.
pub open spec fn header_of(b: Seq<u8>) -> PageHeader {
    PageHeader {
        id: bytes::le_at(b, 0, 8) as u64,
        page_type: b[8],
        count: bytes::le_at(b, 16, 8) as u64,
        overflow: bytes::le_at(b, 24, 8) as u64,
    }
}

/// How many bytes of a block its checksum takes, in a version of the format.
pub open spec fn trailer(version: u32) -> int {
    if version == 1 {
        0
    } else {
        CHECKSUM_SIZE as int
    }
}

/// Whether some bytes of a block end within its data.
pub open spec fn end_check(id: u64, offset: int, len: int, limit: int) -> Result<(), Error> {
    if offset + len > usize::MAX {
        Err(Error::InvalidDB(Fault::One("page ", id, " data offset overflow")))
    } else if offset + len > limit {
        Err(Error::InvalidDB(Fault::One("page ", id, " data exceeds its block")))
    } else {
        Ok(())
    }
}

/// A number of elements in bytes.
pub open spec fn size_check(id: u64, count: u64, size: int) -> Result<usize, Error> {
    if count > usize::MAX {
        Err(Error::InvalidDB(Fault::Field(id, "element count")))
    } else if count * size > usize::MAX {
        Err(Error::InvalidDB(Fault::One("page ", id, " element count overflow")))
    } else {
        Ok((count * size) as usize)
    }
}

/// A branch element: the child page, and where its key stands, counted from
/// the element itself.
#[derive(Clone, Copy, Debug, PartialEq, Eq, Structural)]
pub struct BranchElement {
    pub page: u64,
    pub key_size: u64,
    pub pos: u64,
}

/// A leaf element: its kind, and where its key and its value stand, counted
/// from the element itself.
#[derive(Clone, Copy, Debug, PartialEq, Eq, Structural)]
pub struct LeafElement {
    pub node_type: u8,
    pub pos: u64,
    pub key_size: u64,
    pub value_size: u64,
}

/// A page that was released, and by which transaction.
#[derive(Clone, Copy, Debug, PartialEq, Eq, Structural)]
pub struct RetiredPage {
    pub page_id: u64,
    pub retired_tx_id: u64,
}

/// The branch element `i` of a block.
pub open spec fn branch_at(b: Seq<u8>, i: int) -> BranchElement {
    let at = DATA_OFFSET + i * BRANCH_SIZE;
    BranchElement {
        page: bytes::le_at(b, at, 8) as u64,
        key_size: bytes::le_at(b, at + 8, 8) as u64,
        pos: bytes::le_at(b, at + 16, 8) as u64,
    }
}

/// The key of the branch element `i`.
pub open spec fn branch_key(b: Seq<u8>, i: int) -> Seq<u8> {
    let e = branch_at(b, i);
    let at = DATA_OFFSET + i * BRANCH_SIZE + e.pos;
    b.subrange(at, at + e.key_size)
}

/// The leaf element `i` of a block.
pub open spec fn leaf_at(b: Seq<u8>, i: int) -> LeafElement {
    let at = DATA_OFFSET + i * LEAF_SIZE;
    LeafElement {
        node_type: b[at],
        pos: bytes::le_at(b, at + 8, 8) as u64,
        key_size: bytes::le_at(b, at + 16, 8) as u64,
        value_size: bytes::le_at(b, at + 24, 8) as u64,
    }
}

/// The key of the leaf element `i`.
pub open spec fn leaf_key(b: Seq<u8>, i: int) -> Seq<u8> {
    let e = leaf_at(b, i);
    let at = DATA_OFFSET + i * LEAF_SIZE + e.pos;
    b.subrange(at, at + e.key_size)
}

/// The value of the leaf element `i`.
pub open spec fn leaf_value(b: Seq<u8>, i: int) -> Seq<u8> {
    let e = leaf_at(b, i);
    let at = DATA_OFFSET + i * LEAF_SIZE + e.pos + e.key_size;
    b.subrange(at, at + e.value_size)
}

/// The entry `i` of a freelist block.
pub open spec fn retired_at(b: Seq<u8>, i: int) -> RetiredPage {
    let at = DATA_OFFSET + i * RETIRED_SIZE;
    RetiredPage {
        page_id: bytes::le_at(b, at, 8) as u64,
        retired_tx_id: bytes::le_at(b, at + 8, 8) as u64,
    }
}

/// Whether the first `n` branch elements point into the block's data.
pub open spec fn branches_check(b: Seq<u8>, id: u64, n: int, limit: int) -> Result<(), Error>
    decreases n,
{
    if n <= 0 {
        Ok(())
    } else {
        match branches_check(b, id, n - 1, limit) {
            Err(e) => Err(e),
            Ok(_) => {
                let e = branch_at(b, n - 1);
                let end = e.pos + e.key_size;
                if end > u64::MAX {
                    Err(Error::InvalidDB(Fault::One("page ", id, " branch key overflow")))
                } else if end > usize::MAX {
                    Err(Error::InvalidDB(Fault::Field(id, "branch key end")))
                } else {
                    end_check(id, DATA_OFFSET + (n - 1) * BRANCH_SIZE, end, limit)
                }
            },
        }
    }
}

/// Whether the first `n` leaf elements have a known kind and point into the
/// block's data.
pub open spec fn leaves_check(b: Seq<u8>, id: u64, n: int, limit: int) -> Result<(), Error>
    decreases n,
{
    if n <= 0 {
        Ok(())
    } else {
        match leaves_check(b, id, n - 1, limit) {
            Err(e) => Err(e),
            Ok(_) => {
                let e = leaf_at(b, n - 1);
                let end = e.pos + e.key_size + e.value_size;
                if e.node_type != NODE_BUCKET && e.node_type != NODE_DATA {
                    Err(
                        Error::InvalidDB(
                            Fault::Three(
                                "page ",
                                id,
                                " leaf ",
                                (n - 1) as u64,
                                " has invalid node type ",
                                e.node_type as u64,
                                "",
                            ),
                        ),
                    )
                } else if end > u64::MAX {
                    Err(Error::InvalidDB(Fault::One("page ", id, " leaf data overflow")))
                } else if end > usize::MAX {
                    Err(Error::InvalidDB(Fault::Field(id, "leaf data end")))
                } else {
                    end_check(id, DATA_OFFSET + (n - 1) * LEAF_SIZE, end, limit)
                }
            },
        }
    }
}

/// Whether what a block holds lies within its data.
pub open spec fn layout_check(b: Seq<u8>, limit: int) -> Result<(), Error> {
    let h = header_of(b);
    if h.page_type == TYPE_META {
        end_check(h.id, DATA_OFFSET as int, META_SIZE as int, limit)
    } else if h.page_type == TYPE_FREELIST {
        match size_check(h.id, h.count, RETIRED_SIZE as int) {
            Err(e) => Err(e),
            Ok(size) => end_check(h.id, DATA_OFFSET as int, size as int, limit),
        }
    } else if h.page_type == TYPE_BRANCH {
        match size_check(h.id, h.count, BRANCH_SIZE as int) {
            Err(e) => Err(e),
            Ok(size) => match end_check(h.id, DATA_OFFSET as int, size as int, limit) {
                Err(e) => Err(e),
                Ok(_) => branches_check(b, h.id, h.count as int, limit),
            },
        }
    } else {
        match size_check(h.id, h.count, LEAF_SIZE as int) {
            Err(e) => Err(e),
            Ok(size) => match end_check(h.id, DATA_OFFSET as int, size as int, limit) {
                Err(e) => Err(e),
                Ok(_) => leaves_check(b, h.id, h.count as int, limit),
            },
        }
    }
}

/// Whether a page may have this type.
pub open spec fn known_type(t: u8) -> bool {
    t == TYPE_BRANCH || t == TYPE_LEAF || t == TYPE_META || t == TYPE_FREELIST
}

/// The block at page `id` of a file, where it is a valid one.
pub open spec fn block_of(buf: Seq<u8>, id: u64, pagesize: u64, version: u32) -> Result<
    Seq<u8>,
    Error,
> {
    let offset = id * pagesize;
    let h = header_of(buf.skip(offset));
    let len = (h.overflow + 1) * pagesize;
    let b = buf.subrange(offset, offset + len);
    let limit = len - trailer(version);
    if offset > u64::MAX {
        Err(Error::InvalidDB(Fault::One("page ", id, " offset overflow")))
    } else if offset > usize::MAX {
        Err(Error::InvalidDB(Fault::Field(id, "offset")))
    } else if offset + HEADER_SIZE > usize::MAX {
        Err(Error::InvalidDB(Fault::One("page ", id, " header overflow")))
    } else if offset + HEADER_SIZE > buf.len() {
        Err(Error::InvalidDB(Fault::One("page ", id, " is outside the mapped file")))
    } else if h.id != id {
        Err(Error::InvalidDB(Fault::Two("page ", id, " contains page id ", h.id, "")))
    } else if !known_type(h.page_type) {
        Err(
            Error::InvalidDB(
                Fault::Two("page ", id, " has invalid type ", h.page_type as u64, ""),
            ),
        )
    } else if h.overflow + 1 > u64::MAX {
        Err(Error::InvalidDB(Fault::One("page ", id, " overflow count overflow")))
    } else if len > u64::MAX {
        Err(Error::InvalidDB(Fault::One("page ", id, " block length overflow")))
    } else if len > usize::MAX {
        Err(Error::InvalidDB(Fault::Field(id, "block length")))
    } else if offset + len > usize::MAX {
        Err(Error::InvalidDB(Fault::One("page ", id, " block end overflow")))
    } else if offset + len > buf.len() {
        Err(Error::InvalidDB(Fault::One("page ", id, " overflow block exceeds the file")))
    } else if len < HEADER_SIZE + trailer(version) {
        Err(Error::InvalidDB(Fault::One("page ", id, " block is too small")))
    } else if version != 1 && sha3_256(b.take(limit)) != b.skip(limit) {
        Err(Error::InvalidDB(Fault::One("page ", id, " checksum mismatch")))
    } else {
        match layout_check(b, limit) {
            Err(e) => Err(e),
            Ok(_) => Ok(b),
        }
    }
}

/// The elements of a valid leaf lie within the file.
pub proof fn lemma_block_room(buf: Seq<u8>, id: u64, pagesize: u64, version: u32)
    requires
        block_of(buf, id, pagesize, version) is Ok,
        header_of(block_of(buf, id, pagesize, version)->Ok_0).page_type == TYPE_LEAF,
    ensures
        header_of(block_of(buf, id, pagesize, version)->Ok_0).count <= usize::MAX,
        header_of(block_of(buf, id, pagesize, version)->Ok_0).count < buf.len(),
{
    let b = block_of(buf, id, pagesize, version)->Ok_0;
    let offset = id * pagesize;
    assert(offset >= 0) by (nonlinear_arith)
        requires
            offset == id * pagesize,
            id >= 0,
            pagesize >= 0,
    ;
    let h = header_of(b);
    assert(h.count * LEAF_SIZE >= h.count);
}

/// Checks that a number fits this platform.
fn checked_usize(id: u64, value: u64, field: &'static str) -> (r: Result<usize, Error>)
    ensures
        match r {
            Ok(n) => n == value,
            Err(e) => value > usize::MAX && e == Error::InvalidDB(Fault::Field(id, field)),
        },
{
    if value > usize::MAX as u64 {
        Err(Error::InvalidDB(Fault::Field(id, field)))
    } else {
        Ok(value as usize)
    }
}

/// Computes how many bytes some elements take.
fn checked_size(id: u64, count: u64, element_size: usize) -> (r: Result<usize, Error>)
    ensures
        r == size_check(id, count, element_size as int),
{
    let count: usize = match checked_usize(id, count, "element count") {
        Ok(n) => n,
        Err(e) => return Err(e),
    };
    match count.checked_mul(element_size) {
        Some(n) => Ok(n),
        None => Err(Error::InvalidDB(Fault::One("page ", id, " element count overflow"))),
    }
}

/// Checks that some bytes of a block end within its data.
fn ensure_end(id: u64, offset: usize, len: usize, limit: usize) -> (r: Result<(), Error>)
    ensures
        r == end_check(id, offset as int, len as int, limit as int),
{
    let end: usize = match offset.checked_add(len) {
        Some(n) => n,
        None => return Err(
            Error::InvalidDB(Fault::One("page ", id, " data offset overflow")),
        ),
    };
    if end > limit {
        return Err(Error::InvalidDB(Fault::One("page ", id, " data exceeds its block")));
    }
    Ok(())
}

/// Checks the checksum at the end of a block.
fn verify_checksum(block: &[u8], id: u64) -> (r: Result<(), Error>)
    requires
        block@.len() >= CHECKSUM_SIZE,
    ensures
        ({
            let at = block@.len() - CHECKSUM_SIZE;
            r == (if sha3_256(block@.take(at)) != block@.skip(at) {
                Err(Error::InvalidDB(Fault::One("page ", id, " checksum mismatch")))
            } else {
                Ok(())
            })
        }),
{
    let at: usize = block.len() - CHECKSUM_SIZE;
    let expected: Vec<u8> = digest(slice_subrange(block, 0, at));
    assert(block@.subrange(0, at as int) =~= block@.take(at as int));
    assert(block@.subrange(at as int, block@.len() as int) =~= block@.skip(at as int));
    if !same(&expected, slice_subrange(block, at, block.len())) {
        return Err(Error::InvalidDB(Fault::One("page ", id, " checksum mismatch")));
    }
    Ok(())
}

/// A block with its checksum.
pub open spec fn sealed(b: Seq<u8>) -> Seq<u8> {
    let at = b.len() - CHECKSUM_SIZE;
    b.take(at) + sha3_256(b.take(at))
}

/// Writes the checksum at the end of a block.
pub fn seal_block(buf: &mut Vec<u8>) -> (r: Result<(), Error>)
    ensures
        match r {
            Ok(_) => old(buf)@.len() >= CHECKSUM_SIZE && final(buf)@ == sealed(old(buf)@)
                && final(buf)@.len() == old(buf)@.len(),
            Err(e) => old(buf)@.len() < CHECKSUM_SIZE && final(buf)@ == old(buf)@ && e
                == Error::InvalidDB(Fault::Text("cannot checksum a short page block")),
        },
{
    if buf.len() < CHECKSUM_SIZE {
        return Err(Error::InvalidDB(Fault::Text("cannot checksum a short page block")));
    }
    let ghost was = buf@;
    let at: usize = buf.len() - CHECKSUM_SIZE;
    buf.truncate(at);
    assert(buf@ =~= was.take(at as int));
    let sum: Vec<u8> = digest(buf);
    append(buf, &sum);
    Ok(())
}

/// A block as it is written in some version of the format: only the first has
/// no checksums.
pub open spec fn sealed_in(b: Seq<u8>, version: u32) -> Seq<u8> {
    if version == 1 {
        b
    } else {
        sealed(b)
    }
}

/// Seals a block, if the version of the format asks for it.
pub fn seal_in(buf: &mut Vec<u8>, version: u32)
    requires
        old(buf)@.len() >= CHECKSUM_SIZE,
    ensures
        final(buf)@ == sealed_in(old(buf)@, version),
        final(buf)@.len() == old(buf)@.len(),
{
    if version != 1 {
        let _sealed: Result<(), Error> = seal_block(buf);
    }
}

/// A valid block.
pub struct Page<'a> {
    bytes: &'a [u8],
    limit: usize,
}

impl<'a> Page<'a> {
    /// The bytes of the block.
    pub closed spec fn block(&self) -> Seq<u8> {
        self.bytes@
    }

    /// Where the block's data ends.
    pub closed spec fn limit(&self) -> int {
        self.limit as int
    }

    /// Whether the block is laid out as it should be.
    pub open spec fn wf(&self) -> bool {
        &&& HEADER_SIZE <= self.limit() <= self.block().len() <= usize::MAX
        &&& known_type(header_of(self.block()).page_type)
        &&& layout_check(self.block(), self.limit()) == Ok::<(), Error>(())
    }

    /// The elements of a block fit in memory.
    pub proof fn lemma_count_fits(&self)
        requires
            self.wf(),
            header_of(self.block()).page_type != TYPE_META,
        ensures
            header_of(self.block()).count <= usize::MAX,
    {
    }

    /// The block's header.
    pub fn header(&self) -> (r: PageHeader)
        requires
            self.wf(),
        ensures
            r == header_of(self.block()),
    {
        read_header(self.bytes)
    }

    /// The branch element `i`.
    pub fn branch(&self, i: usize) -> (r: BranchElement)
        requires
            self.wf(),
            header_of(self.block()).page_type == TYPE_BRANCH,
            i < header_of(self.block()).count,
        ensures
            r == branch_at(self.block(), i as int),
    {
        read_branch(self.bytes, i)
    }

    /// The key of the branch element `i`.
    pub fn branch_key(&self, i: usize) -> (r: &'a [u8])
        requires
            self.wf(),
            header_of(self.block()).page_type == TYPE_BRANCH,
            i < header_of(self.block()).count,
        ensures
            r@ == branch_key(self.block(), i as int),
    {
        let e: BranchElement = read_branch(self.bytes, i);
        proof {
            lemma_branches_within(
                self.bytes@,
                header_of(self.bytes@).id,
                header_of(self.bytes@).count as int,
                self.limit as int,
                i as int,
            );
        }
        let at: usize = DATA_OFFSET + i * BRANCH_SIZE + e.pos as usize;
        slice_subrange(self.bytes, at, at + e.key_size as usize)
    }

    /// The leaf element `i`.
    pub fn leaf(&self, i: usize) -> (r: LeafElement)
        requires
            self.wf(),
            header_of(self.block()).page_type == TYPE_LEAF,
            i < header_of(self.block()).count,
        ensures
            r == leaf_at(self.block(), i as int),
            r.node_type == NODE_BUCKET || r.node_type == NODE_DATA,
    {
        proof {
            lemma_leaves_within(
                self.bytes@,
                header_of(self.bytes@).id,
                header_of(self.bytes@).count as int,
                self.limit as int,
                i as int,
            );
        }
        read_leaf(self.bytes, i)
    }

    /// The key of the leaf element `i`.
    pub fn leaf_key(&self, i: usize) -> (r: &'a [u8])
        requires
            self.wf(),
            header_of(self.block()).page_type == TYPE_LEAF,
            i < header_of(self.block()).count,
        ensures
            r@ == leaf_key(self.block(), i as int),
    {
        let e: LeafElement = read_leaf(self.bytes, i);
        proof {
            lemma_leaves_within(
                self.bytes@,
                header_of(self.bytes@).id,
                header_of(self.bytes@).count as int,
                self.limit as int,
                i as int,
            );
        }
        let at: usize = DATA_OFFSET + i * LEAF_SIZE + e.pos as usize;
        slice_subrange(self.bytes, at, at + e.key_size as usize)
    }

    /// The value of the leaf element `i`.
    pub fn leaf_value(&self, i: usize) -> (r: &'a [u8])
        requires
            self.wf(),
            header_of(self.block()).page_type == TYPE_LEAF,
            i < header_of(self.block()).count,
        ensures
            r@ == leaf_value(self.block(), i as int),
    {
        let e: LeafElement = read_leaf(self.bytes, i);
        proof {
            lemma_leaves_within(
                self.bytes@,
                header_of(self.bytes@).id,
                header_of(self.bytes@).count as int,
                self.limit as int,
                i as int,
            );
        }
        let at: usize = DATA_OFFSET + i * LEAF_SIZE + e.pos as usize + e.key_size as usize;
        slice_subrange(self.bytes, at, at + e.value_size as usize)
    }

    /// The freelist entry `i`.
    pub fn retired(&self, i: usize) -> (r: RetiredPage)
        requires
            self.wf(),
            header_of(self.block()).page_type == TYPE_FREELIST,
            i < header_of(self.block()).count,
        ensures
            r == retired_at(self.block(), i as int),
    {
        let len: usize = self.bytes.len();
        let at: usize = DATA_OFFSET + i * RETIRED_SIZE;
        RetiredPage {
            page_id: u64_le_at(self.bytes, at),
            retired_tx_id: u64_le_at(self.bytes, at + 8),
        }
    }

    /// The bytes of the meta record that the block holds.
    pub fn meta_bytes(&self) -> (r: &'a [u8])
        requires
            self.wf(),
            header_of(self.block()).page_type == TYPE_META,
        ensures
            r@ == self.block().subrange(DATA_OFFSET as int, DATA_OFFSET + META_SIZE),
    {
        slice_subrange(self.bytes, DATA_OFFSET, DATA_OFFSET + META_SIZE)
    }

    /// Checks the block at page `id`, in the current version of the format.
    pub fn validate_block(buf: &'a [u8], id: u64, pagesize: u64) -> (r: Result<Page<'a>, Error>)
        ensures
            match (r, block_of(buf@, id, pagesize, FORMAT_VERSION)) {
                (Ok(p), Ok(b)) => p.block() == b && p.wf() && p.limit() == b.len() - CHECKSUM_SIZE,
                (Err(e), Err(f)) => e == f,
                _ => false,
            },
    {
        Page::validate_version(buf, id, pagesize, FORMAT_VERSION)
    }

    /// Checks the block at page `id`, in some version of the format.
    #[verifier::rlimit(40)]
    #[verifier::spinoff_prover]
    pub fn validate_version(buf: &'a [u8], id: u64, pagesize: u64, version: u32) -> (r: Result<
        Page<'a>,
        Error,
    >)
        ensures
            match (r, block_of(buf@, id, pagesize, version)) {
                (Ok(p), Ok(b)) => p.block() == b && p.wf() && p.limit() == b.len() - trailer(
                    version,
                ),
                (Err(e), Err(f)) => e == f,
                _ => false,
            },
    {
        let offset: u64 = match id.checked_mul(pagesize) {
            Some(n) => n,
            None => return Err(Error::InvalidDB(Fault::One("page ", id, " offset overflow"))),
        };
        let offset: usize = match checked_usize(id, offset, "offset") {
            Ok(n) => n,
            Err(e) => return Err(e),
        };
        let header_end: usize = match offset.checked_add(HEADER_SIZE) {
            Some(n) => n,
            None => return Err(Error::InvalidDB(Fault::One("page ", id, " header overflow"))),
        };
        if header_end > buf.len() {
            return Err(Error::InvalidDB(Fault::One("page ", id, " is outside the mapped file")));
        }
        let rest: &'a [u8] = slice_subrange(buf, offset, buf.len());
        assert(rest@ =~= buf@.skip(offset as int));
        let header: PageHeader = read_header(rest);
        if header.id != id {
            return Err(
                Error::InvalidDB(Fault::Two("page ", id, " contains page id ", header.id, "")),
            );
        }
        if !(header.page_type == TYPE_BRANCH || header.page_type == TYPE_LEAF || header.page_type
            == TYPE_META || header.page_type == TYPE_FREELIST) {
            return Err(
                Error::InvalidDB(
                    Fault::Two("page ", id, " has invalid type ", header.page_type as u64, ""),
                ),
            );
        }
        let block_pages: u64 = match header.overflow.checked_add(1) {
            Some(n) => n,
            None => return Err(
                Error::InvalidDB(Fault::One("page ", id, " overflow count overflow")),
            ),
        };
        let block_len: u64 = match block_pages.checked_mul(pagesize) {
            Some(n) => n,
            None => return Err(
                Error::InvalidDB(Fault::One("page ", id, " block length overflow")),
            ),
        };
        let block_len: usize = match checked_usize(id, block_len, "block length") {
            Ok(n) => n,
            Err(e) => return Err(e),
        };
        let block_end: usize = match offset.checked_add(block_len) {
            Some(n) => n,
            None => return Err(Error::InvalidDB(Fault::One("page ", id, " block end overflow"))),
        };
        if block_end > buf.len() {
            return Err(
                Error::InvalidDB(Fault::One("page ", id, " overflow block exceeds the file")),
            );
        }
        let trailing: usize = if version == 1 {
            0
        } else {
            CHECKSUM_SIZE
        };
        if block_len < HEADER_SIZE + trailing {
            return Err(Error::InvalidDB(Fault::One("page ", id, " block is too small")));
        }
        let block: &'a [u8] = slice_subrange(buf, offset, block_end);
        let limit: usize = block_len - trailing;
        if version != 1 {
            match verify_checksum(block, id) {
                Ok(_) => {},
                Err(e) => return Err(e),
            }
        }
        proof {
            assert(block@ =~= rest@.take(block@.len() as int));
            lemma_header_local(rest@, block@);
        }
        match validate_layout(block, limit) {
            Ok(_) => {},
            Err(e) => return Err(e),
        }
        Ok(Page { bytes: block, limit })
    }
}

/// The header of a block is in its first bytes.
pub proof fn lemma_header_local(s: Seq<u8>, b: Seq<u8>)
    requires
        b.len() >= HEADER_SIZE,
        b == s.take(b.len() as int),
        b.len() <= s.len(),
    ensures
        header_of(b) == header_of(s),
{
    assert(b.subrange(0, 8) =~= s.subrange(0, 8));
    assert(b.subrange(16, 24) =~= s.subrange(16, 24));
    assert(b.subrange(24, 32) =~= s.subrange(24, 32));
}

/// Reads the header of a block.
fn read_header(b: &[u8]) -> (r: PageHeader)
    requires
        b@.len() >= DATA_OFFSET,
    ensures
        r == header_of(b@),
{
    PageHeader {
        id: u64_le_at(b, 0),
        page_type: b[8],
        count: u64_le_at(b, 16),
        overflow: u64_le_at(b, 24),
    }
}

/// Reads the branch element `i` of a block.
fn read_branch(b: &[u8], i: usize) -> (r: BranchElement)
    requires
        DATA_OFFSET + (i + 1) * BRANCH_SIZE <= b@.len(),
    ensures
        r == branch_at(b@, i as int),
{
    let len: usize = b.len();
    let at: usize = DATA_OFFSET + i * BRANCH_SIZE;
    BranchElement {
        page: u64_le_at(b, at),
        key_size: u64_le_at(b, at + 8),
        pos: u64_le_at(b, at + 16),
    }
}

/// Reads the leaf element `i` of a block.
fn read_leaf(b: &[u8], i: usize) -> (r: LeafElement)
    requires
        DATA_OFFSET + (i + 1) * LEAF_SIZE <= b@.len(),
    ensures
        r == leaf_at(b@, i as int),
{
    let len: usize = b.len();
    let at: usize = DATA_OFFSET + i * LEAF_SIZE;
    LeafElement {
        node_type: b[at],
        pos: u64_le_at(b, at + 8),
        key_size: u64_le_at(b, at + 16),
        value_size: u64_le_at(b, at + 24),
    }
}

proof fn lemma_branches_stop(b: Seq<u8>, id: u64, n: int, k: int, limit: int)
    requires
        0 <= n <= k,
        branches_check(b, id, n, limit) is Err,
    ensures
        branches_check(b, id, k, limit) == branches_check(b, id, n, limit),
    decreases k,
{
    if n < k {
        lemma_branches_stop(b, id, n, k - 1, limit);
    }
}

proof fn lemma_leaves_stop(b: Seq<u8>, id: u64, n: int, k: int, limit: int)
    requires
        0 <= n <= k,
        leaves_check(b, id, n, limit) is Err,
    ensures
        leaves_check(b, id, k, limit) == leaves_check(b, id, n, limit),
    decreases k,
{
    if n < k {
        lemma_leaves_stop(b, id, n, k - 1, limit);
    }
}

/// Checked branch elements point into the block's data.
pub proof fn lemma_branches_within(b: Seq<u8>, id: u64, n: int, limit: int, i: int)
    requires
        branches_check(b, id, n, limit) is Ok,
        0 <= i < n,
    ensures
        DATA_OFFSET + i * BRANCH_SIZE + branch_at(b, i).pos + branch_at(b, i).key_size <= limit,
        branch_at(b, i).pos + branch_at(b, i).key_size <= usize::MAX,
    decreases n,
{
    if i < n - 1 {
        lemma_branches_within(b, id, n - 1, limit, i);
    }
}

/// Checked leaf elements point into the block's data.
pub proof fn lemma_leaves_within(b: Seq<u8>, id: u64, n: int, limit: int, i: int)
    requires
        leaves_check(b, id, n, limit) is Ok,
        0 <= i < n,
    ensures
        DATA_OFFSET + i * LEAF_SIZE + leaf_at(b, i).pos + leaf_at(b, i).key_size + leaf_at(
            b,
            i,
        ).value_size <= limit,
        leaf_at(b, i).pos + leaf_at(b, i).key_size + leaf_at(b, i).value_size <= usize::MAX,
        leaf_at(b, i).node_type == NODE_BUCKET || leaf_at(b, i).node_type == NODE_DATA,
    decreases n,
{
    if i < n - 1 {
        lemma_leaves_within(b, id, n - 1, limit, i);
    }
}

/// Checks that what a block holds lies within its data.
fn validate_layout(block: &[u8], limit: usize) -> (r: Result<(), Error>)
    requires
        HEADER_SIZE <= limit <= block@.len(),
    ensures
        r == layout_check(block@, limit as int),
{
    let len: usize = block.len();
    let h: PageHeader = read_header(block);
    if h.page_type == TYPE_META {
        return ensure_end(h.id, DATA_OFFSET, META_SIZE, limit);
    }
    if h.page_type == TYPE_FREELIST {
        let size: usize = match checked_size(h.id, h.count, RETIRED_SIZE) {
            Ok(n) => n,
            Err(e) => return Err(e),
        };
        return ensure_end(h.id, DATA_OFFSET, size, limit);
    }
    if h.page_type == TYPE_BRANCH {
        let size: usize = match checked_size(h.id, h.count, BRANCH_SIZE) {
            Ok(n) => n,
            Err(e) => return Err(e),
        };
        match ensure_end(h.id, DATA_OFFSET, size, limit) {
            Ok(_) => {},
            Err(e) => return Err(e),
        }
        let count: usize = h.count as usize;
        let mut i: usize = 0;
        while i < count
            invariant
                i <= count == h.count,
                DATA_OFFSET + count * BRANCH_SIZE <= limit <= len == block@.len(),
                h == header_of(block@),
                layout_check(block@, limit as int) == branches_check(
                    block@,
                    h.id,
                    count as int,
                    limit as int,
                ),
                branches_check(block@, h.id, i as int, limit as int) == Ok::<(), Error>(()),
            decreases count - i,
        {
            let e: BranchElement = read_branch(block, i);
            let element_offset: usize = DATA_OFFSET + i * BRANCH_SIZE;
            let checked: Result<(), Error> = match e.pos.checked_add(e.key_size) {
                None => Err(
                    Error::InvalidDB(Fault::One("page ", h.id, " branch key overflow")),
                ),
                Some(end) => match checked_usize(h.id, end, "branch key end") {
                    Err(e) => Err(e),
                    Ok(end) => ensure_end(h.id, element_offset, end, limit),
                },
            };
            match checked {
                Ok(_) => {},
                Err(e) => {
                    proof {
                        lemma_branches_stop(
                            block@,
                            h.id,
                            i + 1,
                            count as int,
                            limit as int,
                        );
                    }
                    return Err(e);
                },
            }
            i = i + 1;
        }
        return Ok(());
    }
    let size: usize = match checked_size(h.id, h.count, LEAF_SIZE) {
        Ok(n) => n,
        Err(e) => return Err(e),
    };
    match ensure_end(h.id, DATA_OFFSET, size, limit) {
        Ok(_) => {},
        Err(e) => return Err(e),
    }
    let count: usize = h.count as usize;
    let mut i: usize = 0;
    while i < count
        invariant
            i <= count == h.count,
            DATA_OFFSET + count * LEAF_SIZE <= limit <= len == block@.len(),
            h == header_of(block@),
            layout_check(block@, limit as int) == leaves_check(
                block@,
                h.id,
                count as int,
                limit as int,
            ),
            leaves_check(block@, h.id, i as int, limit as int) == Ok::<(), Error>(()),
        decreases count - i,
    {
        let e: LeafElement = read_leaf(block, i);
        let element_offset: usize = DATA_OFFSET + i * LEAF_SIZE;
        let checked: Result<(), Error> = if e.node_type != NODE_BUCKET && e.node_type != NODE_DATA {
            Err(
                Error::InvalidDB(
                    Fault::Three(
                        "page ",
                        h.id,
                        " leaf ",
                        i as u64,
                        " has invalid node type ",
                        e.node_type as u64,
                        "",
                    ),
                ),
            )
        } else {
            let end: Option<u64> = match e.pos.checked_add(e.key_size) {
                None => None,
                Some(end) => end.checked_add(e.value_size),
            };
            match end {
                None => Err(Error::InvalidDB(Fault::One("page ", h.id, " leaf data overflow"))),
                Some(end) => match checked_usize(h.id, end, "leaf data end") {
                    Err(e) => Err(e),
                    Ok(end) => ensure_end(h.id, element_offset, end, limit),
                },
            }
        };
        match checked {
            Ok(_) => {},
            Err(e) => {
                proof {
                    lemma_leaves_stop(block@, h.id, i + 1, count as int, limit as int);
                }
                return Err(e);
            },
        }
        i = i + 1;
    }
    Ok(())
}

} // verus!
