//! What holds of finding out about a file, and of deciding how to open it.

use crate::bytes;
use crate::error::Error;
use crate::storage::inspect::{self, FormatInfo, MAX_BOOTSTRAP_SCAN};
use crate::storage::meta;
use crate::storage::options::{FileAction, OpenOptions};
use crate::storage::page::{self, DATA_OFFSET, META_SIZE};
use vstd::prelude::*;

verus! {

/// A number in a part of some bytes is the one that stands there in the whole.
proof fn lemma_field(s: Seq<u8>, b: Seq<u8>, from: int, at: int, n: int)
    requires
        0 <= from,
        0 <= at <= at + n,
        0 <= n,
        from + b.len() <= s.len(),
        at + n <= b.len(),
        b == s.subrange(from, from + b.len()),
    ensures
        bytes::le_at(b, at, n) == bytes::le_at(s, from + at, n),
{
    assert(b.subrange(at, at + n) =~= s.subrange(from + at, from + at + n));
}

/// A meta page that counts declares its page size.
proof fn lemma_declares(head: Seq<u8>, page_size: u64)
    requires
        1024 <= page_size <= MAX_BOOTSTRAP_SCAN,
        2 * page_size <= head.len(),
        meta::valid_meta(head.take(2 * page_size), 0, page_size) is Some,
    ensures
        inspect::declared_page_size(inspect::scanned(head), 0, 0) == Some(page_size),
{
    let buf = head.take(2 * page_size);
    let s = inspect::scanned(head);
    let b = page::block_of(buf, 0, page_size, 1)->Ok_0;
    let m = meta::valid_meta(buf, 0, page_size)->0;
    let h = page::header_of(buf.skip(0));
    assert(buf.skip(0) =~= buf);
    let len = (h.overflow + 1) * page_size;
    assert(len >= page_size) by (nonlinear_arith)
        requires
            len == (h.overflow + 1) * page_size,
            h.overflow >= 0,
            page_size >= 0,
    ;
    assert(b == buf.subrange(0, len));
    let r = b.subrange(DATA_OFFSET as int, DATA_OFFSET + META_SIZE);
    assert(b =~= head.subrange(0, b.len() as int));
    assert(r =~= head.subrange(DATA_OFFSET as int, DATA_OFFSET + META_SIZE));
    let front = s.take(1024);
    assert(front =~= head.take(1024));
    assert(r =~= s.subrange(DATA_OFFSET as int, DATA_OFFSET + META_SIZE));
    lemma_field(s, r, DATA_OFFSET as int, 4, 4);
    lemma_field(s, r, DATA_OFFSET as int, 16, 8);
    let head8 = s.subrange(0, 8);
    assert(head8 =~= buf.subrange(0, 8));
    assert(bytes::le_at(s, 0, 8) == bytes::le_at(buf, 0, 8));
    assert(b[8] == buf[8] && s[8] == buf[8]);
    lemma_small(r);
    lemma_small(buf);
    lemma_small(s);
}

/// What four, or eight, bytes spell is a number of that many bytes.
proof fn lemma_small(s: Seq<u8>)
    ensures
        s.len() >= 8 ==> bytes::le_at(s, 0, 8) <= u64::MAX,
        s.len() >= 8 ==> bytes::le_at(s, 4, 4) <= u32::MAX,
{
    bytes::lemma_pow256_widths();
    if s.len() >= 8 {
        bytes::lemma_le_inverse(s.subrange(0, 8));
        bytes::lemma_le_inverse(s.subrange(4, 8));
    }
}

/// A file both of whose meta pages count is found out about for sure: its page
/// size is the one that it was made with, and it is told of its later
/// transaction.
pub proof fn law_sound_file_is_found_out_about(head: Seq<u8>, file_bytes: u64, page_size: u64)
    requires
        1024 <= page_size <= MAX_BOOTSTRAP_SCAN,
        2 * page_size <= head.len() <= file_bytes,
        meta::valid_meta(head.take(2 * page_size), 0, page_size) is Some,
        meta::valid_meta(head.take(2 * page_size), 1, page_size) is Some,
    ensures
        inspect::plain(head, file_bytes),
        inspect::declared_page_size(inspect::scanned(head), 0, 0) == Some(page_size),
        ({
            let m = meta::current_meta(head.take(2 * page_size), page_size)->Ok_0;
            let info = inspect::candidate(head, file_bytes, page_size)->Ok_0.0;
            &&& info.page_size == page_size
            &&& info.file_bytes == file_bytes
            &&& info.version == m.version
            &&& info.transaction_id == m.tx_id
            &&& info.metadata_page == m.meta_page
            &&& forall|id: u64| id <= 1 ==> (#[trigger] meta::valid_meta(
                head.take(2 * page_size),
                id,
                page_size,
            ))->0.tx_id <= info.transaction_id
        }),
{
    lemma_declares(head, page_size);
    let buf = head.take(2 * page_size);
    assert forall|id: u64| id <= 1 implies (#[trigger] meta::valid_meta(
        buf,
        id,
        page_size,
    ))->0.tx_id <= inspect::candidate(head, file_bytes, page_size)->Ok_0.0.transaction_id by {
        if id == 0 {
        } else {
            assert(id == 1);
        }
    }
}

/// A file that exists is opened with the page size that it was made with; only
/// where that cannot be found out does the one that is asked for count.
pub proof fn law_file_keeps_its_page_size(
    options: OpenOptions,
    detected: Result<FormatInfo, Error>,
)
    ensures
        match detected {
            Ok(info) => options.existing_plan(detected) matches Ok(plan) && plan.pagesize
                == info.page_size,
            Err(e) => match options.pagesize {
                Some(size) => options.existing_plan(detected) matches Ok(plan) && plan.pagesize
                    == size,
                None => options.existing_plan(detected) is Err
                    && options.existing_plan(detected)->Err_0 == e,
            },
        },
        options.existing_plan(detected) matches Ok(plan) ==> match plan.action {
            FileAction::OpenReadOnly => options.flags.read_only,
            FileAction::Open { direct_writes } => !options.flags.read_only && direct_writes
                == options.flags.direct_writes,
            FileAction::Create { .. } => false,
        },
{
}

/// A new file has as many pages as are asked for, of the size that is asked
/// for, and is refused just where that is more than the limit.
pub proof fn law_new_file_has_its_pages(options: OpenOptions, fallback: u64)
    requires
        (if options.pagesize is Some {
            options.pagesize->0
        } else {
            fallback
        }) * options.num_pages <= u64::MAX,
    ensures
        ({
            let size = if options.pagesize is Some {
                options.pagesize->0
            } else {
                fallback
            };
            let bytes = size * options.num_pages;
            let plan = options.new_plan(fallback);
            &&& plan is Err <==> (options.max_file_bytes matches Some(most) && bytes > most)
            &&& plan matches Ok(p) ==> p.pagesize == size && match p.action {
                FileAction::OpenReadOnly => options.flags.read_only,
                FileAction::Create { bytes: b, direct_writes } => !options.flags.read_only && b
                    == bytes && direct_writes == options.flags.direct_writes,
                FileAction::Open { .. } => false,
            }
        }),
{
}

} // verus!
