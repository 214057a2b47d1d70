//! Beginning a transaction, and what a commit writes to its file.

use crate::bytes::{self, push_u64_le};
use crate::error::Error;
use crate::storage::grow::{self, grow, needed};
use crate::storage::meta::{self, publish, write_meta_page, Meta};
use crate::storage::node::{self, push_block_header};
use crate::storage::page::{
    self, RetiredPage, CHECKSUM_SIZE, DATA_OFFSET, HEADER_SIZE, RETIRED_SIZE, TYPE_FREELIST,
};
use vstd::prelude::*;

verus! {

/// How long to wait for the writer slot.
#[derive(Clone, Copy, Debug, PartialEq, Eq, Structural)]
pub enum WriteMode {
    /// Until it is free.
    Blocking,
    /// Not at all.
    Try,
    /// Until a deadline.
    Deadline,
}

/// How a transaction begins.
#[derive(Debug)]
pub enum Begin {
    /// It cannot.
    Refuse(Error),
    /// As a reader, which needs no slot.
    Reader,
    /// Once the writer slot is free: wait for it.
    WaitForSlot,
    /// Once the writer slot is free: see whether it is.
    TrySlot,
}

/// What follows an attempt to get the writer slot.
#[derive(Debug)]
pub enum Attempt {
    /// The transaction begins.
    Begin,
    /// There is no transaction.
    GiveUp,
    /// There is no transaction, and that is an error.
    Fail(Error),
    /// Try again after this many milliseconds.
    Retry { after_millis: u64 },
}

/// Decides how a transaction begins.
pub fn begin(read_only: bool, writable: bool, mode: WriteMode) -> (r: Begin)
    ensures
        r == (if writable && read_only {
            Begin::Refuse(Error::ReadOnlyDB)
        } else if !writable {
            Begin::Reader
        } else if mode == WriteMode::Blocking {
            Begin::WaitForSlot
        } else {
            Begin::TrySlot
        }),
{
    if writable && read_only {
        Begin::Refuse(Error::ReadOnlyDB)
    } else if !writable {
        Begin::Reader
    } else {
        match mode {
            WriteMode::Blocking => Begin::WaitForSlot,
            WriteMode::Try => Begin::TrySlot,
            WriteMode::Deadline => Begin::TrySlot,
        }
    }
}

/// Decides what follows an attempt to get the writer slot.
pub fn after_attempt(mode: WriteMode, acquired: bool, past_deadline: bool) -> (r: Attempt)
    ensures
        r == (if acquired {
            Attempt::Begin
        } else {
            match mode {
                WriteMode::Blocking => Attempt::Retry { after_millis: 2 },
                WriteMode::Try => Attempt::GiveUp,
                WriteMode::Deadline => if past_deadline {
                    Attempt::Fail(Error::WriterTimeout)
                } else {
                    Attempt::Retry { after_millis: 2 }
                },
            }
        }),
{
    if acquired {
        return Attempt::Begin;
    }
    match mode {
        WriteMode::Blocking => Attempt::Retry { after_millis: 2 },
        WriteMode::Try => Attempt::GiveUp,
        WriteMode::Deadline => if past_deadline {
            Attempt::Fail(Error::WriterTimeout)
        } else {
            Attempt::Retry { after_millis: 2 }
        },
    }
}

/// The meta record that a writer starts from.
pub open spec fn next_meta(current: Meta) -> Meta {
    Meta { tx_id: (current.tx_id + 1) as u64, ..current }
}

/// The transaction before which released pages may be used again.
pub open spec fn horizon_of(current: Meta, oldest_reader: Option<u64>) -> u64 {
    match oldest_reader {
        Some(id) => id,
        None => next_meta(current).tx_id,
    }
}

/// The meta record that a writer starts from, and the transaction up to which
/// released pages may be used again: that of the oldest reader, or else the
/// writer's own.
pub fn writer_start(current: Meta, oldest_reader: Option<u64>) -> (r: (Meta, u64))
    requires
        current.tx_id < u64::MAX,
    ensures
        r == (next_meta(current), horizon_of(current, oldest_reader)),
{
    let mut meta: Meta = current;
    meta.tx_id = current.tx_id + 1;
    let horizon: u64 = match oldest_reader {
        Some(id) => id,
        None => meta.tx_id,
    };
    (meta, horizon)
}

/// An entry of a freelist as it is written.
pub open spec fn retired_record(e: RetiredPage) -> Seq<u8> {
    bytes::le_of(e.page_id as nat, 8) + bytes::le_of(e.retired_tx_id as nat, 8)
}

/// The entries of a freelist as they are written.
pub open spec fn retired_records(entries: Seq<RetiredPage>) -> Seq<Seq<u8>> {
    entries.map_values(|e: RetiredPage| retired_record(e))
}

/// A freelist in a block of `len` bytes, before it is sealed.
pub open spec fn freelist_block(
    id: u64,
    entries: Seq<RetiredPage>,
    overflow: u64,
    len: int,
) -> Seq<u8> {
    let filled = node::block_header(id, TYPE_FREELIST, entries.len(), overflow) + bytes::cat(
        retired_records(entries),
    );
    filled + bytes::zeros((len - filled.len()) as nat)
}

proof fn lemma_retired_len(entries: Seq<RetiredPage>)
    ensures
        bytes::cat(retired_records(entries)).len() == entries.len() * RETIRED_SIZE,
        forall|i: int| 0 <= i < entries.len() ==> (#[trigger] retired_records(entries)[i]).len()
            == RETIRED_SIZE,
{
    let s = retired_records(entries);
    assert forall|i: int| 0 <= i < s.len() implies (#[trigger] s[i]).len() == RETIRED_SIZE by {
        bytes::lemma_le_of_len(entries[i].page_id as nat, 8);
        bytes::lemma_le_of_len(entries[i].retired_tx_id as nat, 8);
    }
    bytes::lemma_cat_fixed(s, RETIRED_SIZE as int);
}

/// Lays a freelist out in a block of `len` bytes, which is then to be sealed.
pub fn write_freelist(id: u64, entries: &Vec<RetiredPage>, overflow: u64, len: usize) -> (r: Vec<
    u8,
>)
    requires
        DATA_OFFSET + entries@.len() * RETIRED_SIZE + CHECKSUM_SIZE <= len,
    ensures
        r@ == freelist_block(id, entries@, overflow, len as int),
        r@.len() == len,
{
    let mut out: Vec<u8> = Vec::new();
    push_block_header(&mut out, id, TYPE_FREELIST, entries.len() as u64, overflow);
    let ghost head = out@;
    let ghost s = retired_records(entries@);
    let mut i: usize = 0;
    assert(out@ =~= head + bytes::cat(s.take(0)));
    while i < entries.len()
        invariant
            i <= entries@.len(),
            s == retired_records(entries@),
            out@ == head + bytes::cat(s.take(i as int)),
        decreases entries@.len() - i,
    {
        push_u64_le(&mut out, entries[i].page_id);
        push_u64_le(&mut out, entries[i].retired_tx_id);
        proof {
            bytes::lemma_cat_piece(s, i as int);
            assert(out@ =~= head + bytes::cat(s.take(i + 1)));
        }
        i = i + 1;
    }
    proof {
        assert(s.take(i as int) =~= s);
        lemma_retired_len(entries@);
        node::lemma_block_header_len(id, TYPE_FREELIST, entries@.len(), overflow);
    }
    let missing: usize = len - out.len();
    crate::page::push_zeros(&mut out, missing);
    out
}

/// The freelist entry `i` of a block that begins with a written freelist.
proof fn lemma_retired_reads(
    b: Seq<u8>,
    id: u64,
    entries: Seq<RetiredPage>,
    overflow: u64,
    i: int,
)
    requires
        ({
            let filled = node::block_header(id, TYPE_FREELIST, entries.len(), overflow)
                + bytes::cat(retired_records(entries));
            filled.len() <= b.len() && b.take(filled.len() as int) == filled
        }),
        0 <= i < entries.len(),
    ensures
        page::retired_at(b, i) == entries[i],
{
    let s = retired_records(entries);
    let head = node::block_header(id, TYPE_FREELIST, entries.len(), overflow);
    let filled = head + bytes::cat(s);
    lemma_retired_len(entries);
    node::lemma_block_header_len(id, TYPE_FREELIST, entries.len(), overflow);
    bytes::lemma_cat_piece(s, i);
    assert forall|k: int| 0 <= k < s.take(i).len() implies (#[trigger] s.take(i)[k]).len()
        == RETIRED_SIZE by {
        assert(s.take(i)[k] == s[k]);
    }
    bytes::lemma_cat_fixed(s.take(i), RETIRED_SIZE as int);
    let at = DATA_OFFSET + i * RETIRED_SIZE;
    let off = i * RETIRED_SIZE;
    let e = entries[i];
    let r = b.subrange(at, at + RETIRED_SIZE);
    assert(r =~= bytes::cat(s).subrange(off, off + RETIRED_SIZE)) by {
        assert(b.take(filled.len() as int).subrange(at, at + RETIRED_SIZE) =~= r);
    }
    assert(s[i] == retired_record(e));
    bytes::lemma_le_of_len(e.page_id as nat, 8);
    bytes::lemma_le_of_len(e.retired_tx_id as nat, 8);
    bytes::lemma_pow256_widths();
    assert(b.subrange(at, at + 8) =~= r.subrange(0, 8));
    assert(r.subrange(0, 8) =~= bytes::le_of(e.page_id as nat, 8));
    assert(b.subrange(at + 8, at + 16) =~= r.subrange(8, 16));
    assert(r.subrange(8, 16) =~= bytes::le_of(e.retired_tx_id as nat, 8));
    bytes::lemma_le_field(b, at, e.page_id as nat, 8);
    bytes::lemma_le_field(b, at + 8, e.retired_tx_id as nat, 8);
}

/// A freelist that was laid out, sealed if its version of the format asks for
/// it, and written is a valid block of its file, and reads back entry by
/// entry.
pub proof fn law_written_freelist_reads_back(
    buf: Seq<u8>,
    id: u64,
    entries: Seq<RetiredPage>,
    overflow: u64,
    pagesize: u64,
    version: u32,
    b: Seq<u8>,
)
    requires
        overflow < u64::MAX,
        b.len() == (overflow + 1) * pagesize,
        b.len() >= HEADER_SIZE + CHECKSUM_SIZE,
        DATA_OFFSET + entries.len() * RETIRED_SIZE + CHECKSUM_SIZE <= b.len(),
        b == page::sealed_in(freelist_block(id, entries, overflow, b.len() as int), version),
        id * pagesize + b.len() <= buf.len() <= usize::MAX,
        buf.subrange(id * pagesize, id * pagesize + b.len()) == b,
    ensures
        page::block_of(buf, id, pagesize, version) == Ok::<Seq<u8>, Error>(b),
        page::header_of(b) == (page::PageHeader {
            id,
            page_type: TYPE_FREELIST,
            count: entries.len() as u64,
            overflow,
        }),
        forall|i: int|
            0 <= i < entries.len() ==> #[trigger] page::retired_at(b, i) == entries[i],
{
    let s = retired_records(entries);
    let head = node::block_header(id, TYPE_FREELIST, entries.len(), overflow);
    let filled = head + bytes::cat(s);
    let len = b.len() as int;
    let limit = len - page::trailer(version);
    let data = len - CHECKSUM_SIZE;
    let offset = id * pagesize;
    let whole = freelist_block(id, entries, overflow, len);
    lemma_retired_len(entries);
    node::lemma_block_header_len(id, TYPE_FREELIST, entries.len(), overflow);
    assert(whole.len() == len);
    if version != 1 {
        assert(b.take(limit) =~= whole.take(limit)) by {
            assert(b.len() == whole.take(limit).len() + page::sha3_256(whole.take(limit)).len());
        }
        assert(b.skip(limit) =~= page::sha3_256(whole.take(limit)));
    }
    assert(b.take(filled.len() as int) =~= filled) by {
        assert(b.take(data) =~= whole.take(data));
        assert(b.take(data).take(filled.len() as int) =~= b.take(filled.len() as int));
        assert(whole.take(data).take(filled.len() as int) =~= filled);
    }
    assert(b.subrange(0, DATA_OFFSET as int) =~= head) by {
        assert(b.take(filled.len() as int).subrange(0, DATA_OFFSET as int) =~= b.subrange(
            0,
            DATA_OFFSET as int,
        ));
    }
    node::lemma_header_reads(b, id, TYPE_FREELIST, entries.len(), overflow);
    assert forall|i: int| 0 <= i < entries.len() implies #[trigger] page::retired_at(b, i)
        == entries[i] by {
        lemma_retired_reads(b, id, entries, overflow, i);
    }
    assert(offset >= 0) by (nonlinear_arith)
        requires
            offset == id * pagesize,
            id >= 0,
            pagesize >= 0,
    ;
    let rest = buf.skip(offset);
    assert(rest.take(len) =~= b);
    page::lemma_header_local(rest, b);
    assert(page::layout_check(b, limit) == Ok::<(), Error>(()));
}

/// A run of pages that a transaction has changed.
#[derive(Debug)]
pub struct DirtyBlock {
    pub page_id: u64,
    pub bytes: Vec<u8>,
}

/// Bytes to be written to a file.
#[derive(Debug)]
pub struct FileWrite {
    pub offset: u64,
    pub bytes: Vec<u8>,
}

/// What a commit does to its file: it grows the file if need be, writes the
/// data and waits until it is durable, and then publishes it by the meta page.
#[derive(Debug)]
pub struct CommitPlan {
    pub new_size: Option<u64>,
    pub data: Vec<FileWrite>,
    pub meta: Meta,
    pub meta_write: FileWrite,
    pub bytes_written: u64,
}

/// Whether every block is long enough to be sealed and lies within a file of
/// `limit` bytes.
pub open spec fn blocks_fit(blocks: Seq<DirtyBlock>, pagesize: u64, limit: int) -> bool {
    forall|i: int|
        0 <= i < blocks.len() ==> CHECKSUM_SIZE <= (#[trigger] blocks[i]).bytes@.len()
            && blocks[i].page_id * pagesize + blocks[i].bytes@.len() <= limit
}

/// The bytes of blocks together.
pub open spec fn total_bytes(blocks: Seq<DirtyBlock>) -> nat
    decreases blocks.len(),
{
    if blocks.len() == 0 {
        0
    } else {
        total_bytes(blocks.drop_last()) + blocks.last().bytes@.len()
    }
}

/// Whether `data` writes each block, sealed if the version of the format asks
/// for it, to its place.
pub open spec fn writes_blocks(
    data: Seq<FileWrite>,
    blocks: Seq<DirtyBlock>,
    pagesize: u64,
    version: u32,
) -> bool {
    &&& data.len() == blocks.len()
    &&& forall|i: int|
        0 <= i < data.len() ==> (#[trigger] data[i]).offset == blocks[i].page_id * pagesize
            && data[i].bytes@ == page::sealed_in(blocks[i].bytes@, version)
            && data[i].bytes@.len() == blocks[i].bytes@.len()
}

/// Whether a commit under `meta` is carried out by the plan.
pub open spec fn commit_planned(
    meta: Meta,
    blocks: Seq<DirtyBlock>,
    pagesize: u64,
    current: u64,
    increment: u64,
    maximum: Option<u64>,
    r: Result<CommitPlan, Error>,
) -> bool {
    match grow::required_size(meta.num_pages, pagesize, maximum) {
        Err(e) => r == Err::<CommitPlan, Error>(e),
        Ok(required) => match r {
            Err(e) => grow::grown_size(
                current,
                required,
                increment,
                maximum,
                Err::<Option<u64>, Error>(e),
            ),
            Ok(plan) => {
                let next = meta::published(meta);
                &&& grow::grown_size(
                    current,
                    required,
                    increment,
                    maximum,
                    Ok::<Option<u64>, Error>(plan.new_size),
                )
                &&& writes_blocks(plan.data@, blocks, pagesize, meta.version)
                &&& plan.meta == next
                &&& plan.meta_write.offset == next.meta_page * pagesize
                &&& plan.meta_write.bytes@ == page::sealed_in(
                    meta::meta_page(next, next.meta_page as u64, pagesize as int),
                    meta.version,
                )
                &&& plan.meta_write.bytes@.len() == pagesize
                &&& plan.bytes_written == total_bytes(blocks) + pagesize
            },
        },
    }
}

/// Works out what a commit does to its file. `blocks` are the pages that it
/// changed, the freelist among them, and `meta` is its meta record before it
/// is published.
pub fn plan_commit(
    meta: Meta,
    blocks: Vec<DirtyBlock>,
    pagesize: usize,
    current: u64,
    increment: u64,
    maximum: Option<u64>,
) -> (r: Result<CommitPlan, Error>)
    requires
        pagesize >= 1024,
        increment > 0,
        blocks_fit(blocks@, pagesize as u64, u64::MAX as int),
        total_bytes(blocks@) + pagesize <= u64::MAX,
    ensures
        commit_planned(meta, blocks@, pagesize as u64, current, increment, maximum, r),
{
    let size: u64 = pagesize as u64;
    let required: u64 = match needed(meta.num_pages, size, maximum) {
        Ok(required) => required,
        Err(e) => return Err(e),
    };
    let new_size: Option<u64> = match grow(current, required, increment, maximum) {
        Ok(new_size) => new_size,
        Err(e) => return Err(e),
    };
    let ghost all = blocks@;
    let mut rest: Vec<DirtyBlock> = blocks;
    let mut written: u64 = 0;
    let ghost n = all.len() as int;
    let mut data: Vec<FileWrite> = Vec::new();
    let mut i: usize = 0;
    proof {
        assert(all.take(0) =~= Seq::<DirtyBlock>::empty());
    }
    while i < rest.len()
        invariant
            i <= rest@.len(),
            rest@.len() == all.len(),
            size == pagesize,
            pagesize >= 1024,
            blocks_fit(all, size, u64::MAX as int),
            total_bytes(all) + pagesize <= u64::MAX,
            forall|j: int| i <= j < all.len() ==> (#[trigger] rest@[j]) == all[j],
            forall|j: int| 0 <= j < i ==> (#[trigger] rest@[j]).page_id == all[j].page_id,
            writes_blocks(data@, all.take(i as int), size, meta.version),
            written == total_bytes(all.take(i as int)),
        decreases rest@.len() - i,
    {
        let ghost done = data@;
        let mut block: DirtyBlock = DirtyBlock { page_id: rest[i].page_id, bytes: Vec::new() };
        std::mem::swap(&mut block, &mut rest[i]);
        assert(block == all[i as int]);
        let offset: u64 = block.page_id * size;
        let mut bytes: Vec<u8> = block.bytes;
        let len: u64 = bytes.len() as u64;
        proof {
            assert(all.take(i + 1).drop_last() =~= all.take(i as int));
            lemma_total_grows(all, i + 1);
        }
        page::seal_in(&mut bytes, meta.version);
        written = written + len;
        data.push(FileWrite { offset, bytes });
        proof {
            let now = all.take(i + 1);
            assert forall|j: int| 0 <= j < data@.len() implies (#[trigger] data@[j]).offset
                == now[j].page_id * size && data@[j].bytes@ == page::sealed_in(
                now[j].bytes@,
                meta.version,
            ) && data@[j].bytes@.len() == now[j].bytes@.len() by {
                if j < i {
                    assert(data@[j] == done[j]);
                    assert(all.take(i as int)[j] == now[j]);
                }
            }
        }
        i = i + 1;
    }
    proof {
        assert(all.take(n) =~= all);
    }
    let next: Meta = publish(meta);
    let bytes: Vec<u8> = write_meta_page(next, next.meta_page as u64, pagesize);
    let offset: u64 = next.meta_page as u64 * size;
    Ok(
        CommitPlan {
            new_size,
            data,
            meta: next,
            meta_write: FileWrite { offset, bytes },
            bytes_written: written + size,
        },
    )
}

proof fn lemma_total_grows(blocks: Seq<DirtyBlock>, i: int)
    requires
        0 <= i <= blocks.len(),
    ensures
        total_bytes(blocks.take(i)) <= total_bytes(blocks),
    decreases blocks.len(),
{
    if i < blocks.len() {
        lemma_total_grows(blocks.drop_last(), i);
        assert(blocks.drop_last().take(i) =~= blocks.take(i));
    } else {
        assert(blocks.take(i) =~= blocks);
    }
}

/// A commit never writes the page that holds the current meta record, so that
/// the record stands until the new one is published.
pub proof fn law_commit_keeps_current_meta(
    meta: Meta,
    blocks: Seq<DirtyBlock>,
    pagesize: u64,
    current: u64,
    increment: u64,
    maximum: Option<u64>,
    plan: CommitPlan,
)
    requires
        meta.meta_page <= 1,
        pagesize >= 1024,
        commit_planned(
            meta,
            blocks,
            pagesize,
            current,
            increment,
            maximum,
            Ok::<CommitPlan, Error>(plan),
        ),
        forall|i: int| 0 <= i < blocks.len() ==> (#[trigger] blocks[i]).page_id >= 2,
    ensures
        plan.meta_write.offset != meta.meta_page * pagesize,
        forall|i: int|
            0 <= i < plan.data@.len() ==> (#[trigger] plan.data@[i]).offset >= 2 * pagesize,
{
    assert forall|i: int| 0 <= i < plan.data@.len() implies (#[trigger] plan.data@[i]).offset >= 2
        * pagesize by {
        let id = blocks[i].page_id;
        assert(id * pagesize >= 2 * pagesize) by (nonlinear_arith)
            requires
                id >= 2,
        ;
    }
    let a = meta::published(meta).meta_page;
    let b = meta.meta_page;
    assert(a * pagesize != b * pagesize) by (nonlinear_arith)
        requires
            a != b,
            pagesize > 0,
    ;
}

} // verus!
