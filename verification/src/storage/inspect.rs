//! Finding out the page size and the transaction of a database file from its
//! first bytes.

use crate::bytes::{self, u32_le_at, u64_le_at};
use crate::error::{Error, Fault};
use crate::storage::meta::{self, check_meta, Meta, MAGIC_VALUE};
use crate::storage::page::{DATA_OFFSET, HEADER_SIZE, META_SIZE, TYPE_META};
use vstd::prelude::*;
use vstd::slice::slice_subrange;

verus! {

/// The largest page size that is looked for.
pub const MAX_BOOTSTRAP_SCAN: u64 = 16_777_216;

/// Persisted format facts discoverable without mapping the complete database.
#[derive(Clone, Copy, Debug, PartialEq, Eq, Structural)]
pub struct FormatInfo {
    pub page_size: u64,
    pub version: u32,
    pub transaction_id: u64,
    pub metadata_page: u32,
    pub file_bytes: u64,
}

/// The page size that a meta page at `offset` declares, where there is one
/// that says it is page `expected_id`.
pub open spec fn declared_page_size(s: Seq<u8>, offset: int, expected_id: u64) -> Option<u64> {
    let m = offset + DATA_OFFSET;
    let page_size = bytes::le_at(s, m + 16, 8) as u64;
    if offset + DATA_OFFSET + META_SIZE > s.len() {
        None
    } else if bytes::le_at(s, offset, 8) != expected_id || s[offset + 8] != TYPE_META {
        None
    } else if bytes::le_at(s, m + 4, 4) != MAGIC_VALUE {
        None
    } else if 1024 <= page_size <= MAX_BOOTSTRAP_SCAN {
        Some(page_size)
    } else {
        None
    }
}

/// Reads the page size that a meta page at `offset` declares.
pub fn metadata_page_size(bytes: &[u8], offset: usize, expected_id: u64) -> (r: Option<u64>)
    ensures
        r == declared_page_size(bytes@, offset as int, expected_id),
{
    let len: usize = bytes.len();
    if len < DATA_OFFSET + META_SIZE || offset > len - (DATA_OFFSET + META_SIZE) {
        return None;
    }
    if u64_le_at(bytes, offset) != expected_id || bytes[offset + 8] != TYPE_META {
        return None;
    }
    let m: usize = offset + DATA_OFFSET;
    if u32_le_at(bytes, m + 4) != MAGIC_VALUE {
        return None;
    }
    let page_size: u64 = u64_le_at(bytes, m + 16);
    if 1024 <= page_size && page_size <= MAX_BOOTSTRAP_SCAN {
        Some(page_size)
    } else {
        None
    }
}

/// What a meta record says of its file.
pub open spec fn info_of(m: Meta, page_size: u64, file_bytes: u64) -> FormatInfo {
    FormatInfo {
        page_size,
        version: m.version,
        transaction_id: m.tx_id,
        metadata_page: m.meta_page,
        file_bytes,
    }
}

/// What a file says of itself if its pages have some size, and how many of its
/// meta pages say so.
pub open spec fn candidate(head: Seq<u8>, file_bytes: u64, page_size: u64) -> Result<
    (FormatInfo, usize),
    Error,
> {
    let s = head.take(2 * page_size);
    if 2 * page_size > u64::MAX {
        Err(Error::InvalidDB(Fault::Text("bootstrap length overflow")))
    } else if 2 * page_size > file_bytes {
        Err(Error::InvalidDB(Fault::Text("metadata pages exceed the file")))
    } else {
        match (meta::valid_meta(s, 0, page_size), meta::valid_meta(s, 1, page_size)) {
            (Some(a), Some(b)) => Ok(
                (
                    info_of(
                        if a.tx_id > b.tx_id {
                            a
                        } else {
                            b
                        },
                        page_size,
                        file_bytes,
                    ),
                    2,
                ),
            ),
            (Some(a), None) => Ok((info_of(a, page_size, file_bytes), 1)),
            (None, Some(b)) => Ok((info_of(b, page_size, file_bytes), 1)),
            (None, None) => Err(Error::InvalidDB(Fault::Text("no valid metadata pages"))),
        }
    }
}

fn make_info(m: Meta, page_size: u64, file_bytes: u64) -> (r: FormatInfo)
    ensures
        r == info_of(m, page_size, file_bytes),
{
    FormatInfo {
        page_size,
        version: m.version,
        transaction_id: m.tx_id,
        metadata_page: m.meta_page,
        file_bytes,
    }
}

/// Reads what a file says of itself if its pages have some size.
pub fn inspect_candidate(head: &[u8], file_bytes: u64, page_size: u64) -> (r: Result<
    (FormatInfo, usize),
    Error,
>)
    requires
        2 * page_size <= file_bytes ==> 2 * page_size <= head@.len(),
    ensures
        r == candidate(head@, file_bytes, page_size),
{
    let bootstrap_len: u64 = match page_size.checked_mul(2) {
        Some(n) => n,
        None => return Err(Error::InvalidDB(Fault::Text("bootstrap length overflow"))),
    };
    if bootstrap_len > file_bytes {
        return Err(Error::InvalidDB(Fault::Text("metadata pages exceed the file")));
    }
    let len: usize = head.len();
    let bytes: &[u8] = slice_subrange(head, 0, bootstrap_len as usize);
    assert(bytes@ =~= head@.take(2 * page_size));
    match (check_meta(bytes, 0, page_size), check_meta(bytes, 1, page_size)) {
        (Some(a), Some(b)) => Ok(
            (
                make_info(
                    if a.tx_id > b.tx_id {
                        a
                    } else {
                        b
                    },
                    page_size,
                    file_bytes,
                ),
                2,
            ),
        ),
        (Some(a), None) => Ok((make_info(a, page_size, file_bytes), 1)),
        (None, Some(b)) => Ok((make_info(b, page_size, file_bytes), 1)),
        (None, None) => Err(Error::InvalidDB(Fault::Text("no valid metadata pages"))),
    }
}

/// The part of a file that is looked through for meta pages.
pub open spec fn scanned(head: Seq<u8>) -> Seq<u8> {
    if head.len() <= MAX_BOOTSTRAP_SCAN {
        head
    } else {
        head.take(MAX_BOOTSTRAP_SCAN as int)
    }
}

/// Whether a meta page of the file declares a page size: the first, or a
/// second one that stands where that size puts it.
pub open spec fn declares(head: Seq<u8>, page_size: u64) -> bool {
    let s = scanned(head);
    ||| declared_page_size(s, 0, 0) == Some(page_size)
    ||| 1024 <= page_size && page_size < s.len() - (HEADER_SIZE + META_SIZE)
        && declared_page_size(s, page_size as int, 1) == Some(page_size)
}

/// Whether a page size is declared and fits the file.
#[verifier::opaque]
pub open spec fn plausible(head: Seq<u8>, file_bytes: u64, page_size: u64) -> bool {
    declares(head, page_size) && candidate(head, file_bytes, page_size) is Ok
}

/// Whether both meta pages are usable under the page size that the first
/// declares.
pub open spec fn plain(head: Seq<u8>, file_bytes: u64) -> bool {
    match declared_page_size(scanned(head), 0, 0) {
        None => false,
        Some(page_size) => match candidate(head, file_bytes, page_size) {
            Ok((_, n)) => n == 2,
            Err(_) => false,
        },
    }
}

/// The page sizes that `found` lists are plausible; so is no other below `n`,
/// and the one that the first page declares is listed, if it is plausible.
spec fn sifted(head: Seq<u8>, file_bytes: u64, found: Seq<FormatInfo>, n: int) -> bool {
    &&& forall|i: int|
        0 <= i < found.len() ==> plausible(head, file_bytes, (#[trigger] found[i]).page_size)
            && candidate(head, file_bytes, found[i].page_size)->Ok_0.0 == found[i] && (
        found[i].page_size < n || declared_page_size(scanned(head), 0, 0) == Some(
            found[i].page_size,
        ))
    &&& forall|i: int, j: int|
        0 <= i < j < found.len() ==> (#[trigger] found[i]).page_size != (
        #[trigger] found[j]).page_size
    &&& forall|p: u64|
        plausible(head, file_bytes, p) && (p < n || declared_page_size(scanned(head), 0, 0)
            == Some(p)) ==> #[trigger] lists(found, p)
}

spec fn lists(found: Seq<FormatInfo>, p: u64) -> bool {
    exists|i: int| 0 <= i < found.len() && (#[trigger] found[i]).page_size == p
}

impl FormatInfo {
    /// Finds out what a file says of itself. `head` is what the file begins
    /// with: all of it, or as much as two pages of the largest size take.
    ///
    /// Where both meta pages are usable under the page size that the first
    /// declares, that is it. Else every declared size is tried, and there must
    /// be just one that fits.
    pub fn inspect(head: &[u8], file_bytes: u64) -> (r: Result<FormatInfo, Error>)
        requires
            head@.len() == file_bytes || (head@.len() == 2 * MAX_BOOTSTRAP_SCAN && head@.len()
                <= file_bytes),
        ensures
            plain(head@, file_bytes) ==> r == Ok::<FormatInfo, Error>(
                candidate(
                    head@,
                    file_bytes,
                    declared_page_size(scanned(head@), 0, 0)->0,
                )->Ok_0.0,
            ),
            !plain(head@, file_bytes) ==> match r {
                Ok(info) => plausible(head@, file_bytes, info.page_size) && candidate(
                    head@,
                    file_bytes,
                    info.page_size,
                )->Ok_0.0 == info && forall|p: u64|
                    plausible(head@, file_bytes, p) ==> p == info.page_size,
                Err(e) => (e == Error::InvalidDB(
                    Fault::Text("could not identify a valid metadata page size"),
                ) && forall|p: u64| !plausible(head@, file_bytes, p)) || (e == Error::InvalidDB(
                    Fault::Text("ambiguous metadata page sizes; use the forensic override"),
                ) && exists|p: u64, q: u64|
                    p != q && #[trigger] plausible(head@, file_bytes, p) && #[trigger] plausible(
                        head@,
                        file_bytes,
                        q,
                    )),
            },
    {
        let prefix: &[u8] = if head.len() as u64 <= MAX_BOOTSTRAP_SCAN {
            head
        } else {
            slice_subrange(head, 0, MAX_BOOTSTRAP_SCAN as usize)
        };
        assert(prefix@ =~= scanned(head@));
        let declared: Option<u64> = metadata_page_size(prefix, 0, 0);
        match declared {
            None => {},
            Some(page_size) => {
                match inspect_candidate(head, file_bytes, page_size) {
                    Ok((info, n)) => {
                        if n == 2 {
                            return Ok(info);
                        }
                    },
                    Err(_) => {},
                }
            },
        }
        assert(!plain(head@, file_bytes));
        let found: Vec<FormatInfo> = sift(head, prefix, file_bytes, declared);
        if found.len() == 1 {
            assert forall|p: u64| plausible(head@, file_bytes, p) implies p
                == found@[0].page_size by {
                assert(lists(found@, p));
            }
            return Ok(found[0]);
        }
        if found.len() == 0 {
            assert forall|p: u64| !plausible(head@, file_bytes, p) by {
                if plausible(head@, file_bytes, p) {
                    assert(lists(found@, p));
                }
            }
            return Err(
                Error::InvalidDB(Fault::Text("could not identify a valid metadata page size")),
            );
        }
        proof {
            let a = found@[0].page_size;
            let b = found@[1].page_size;
            assert(a != b);
            assert(plausible(head@, file_bytes, a) && plausible(head@, file_bytes, b));
        }
        Err(
            Error::InvalidDB(
                Fault::Text("ambiguous metadata page sizes; use the forensic override"),
            ),
        )
    }
}

/// Tries a page size.
fn try_size(head: &[u8], file_bytes: u64, page_size: u64) -> (r: Option<FormatInfo>)
    requires
        head@.len() == file_bytes || (head@.len() == 2 * MAX_BOOTSTRAP_SCAN && head@.len()
            <= file_bytes),
        page_size <= MAX_BOOTSTRAP_SCAN,
        declares(head@, page_size),
    ensures
        match r {
            Some(info) => plausible(head@, file_bytes, page_size) && candidate(
                head@,
                file_bytes,
                page_size,
            )->Ok_0.0 == info && info.page_size == page_size,
            None => !plausible(head@, file_bytes, page_size),
        },
{
    reveal(plausible);
    match inspect_candidate(head, file_bytes, page_size) {
        Ok((info, _)) => Some(info),
        Err(_) => None,
    }
}

/// Finds every plausible page size.
fn sift(head: &[u8], prefix: &[u8], file_bytes: u64, declared: Option<u64>) -> (r: Vec<FormatInfo>)
    requires
        head@.len() == file_bytes || (head@.len() == 2 * MAX_BOOTSTRAP_SCAN && head@.len()
            <= file_bytes),
        prefix@ == scanned(head@),
        declared == declared_page_size(prefix@, 0, 0),
    ensures
        sifted(head@, file_bytes, r@, 0x1_0000_0000_0000_0000),
{
    let mut found: Vec<FormatInfo> = Vec::new();
    match declared {
        None => {},
        Some(page_size) => {
            match try_size(head, file_bytes, page_size) {
                Some(info) => {
                    found.push(info);
                },
                None => {},
            }
        },
    }
    assert(sifted(head@, file_bytes, found@, 1024)) by {
        assert forall|p: u64|
            plausible(head@, file_bytes, p) && (p < 1024 || declared_page_size(
                scanned(head@),
                0,
                0,
            ) == Some(p)) implies #[trigger] lists(found@, p) by {
            reveal(plausible);
            assert(found@[0].page_size == p);
        }
    }
    let spare: usize = HEADER_SIZE + META_SIZE;
    let end: usize = prefix.len().saturating_sub(spare);
    let mut offset: usize = 1024;
    while offset < end
        invariant
            head@.len() == file_bytes || (head@.len() == 2 * MAX_BOOTSTRAP_SCAN && head@.len()
                <= file_bytes),
            prefix@ == scanned(head@),
            prefix@.len() <= MAX_BOOTSTRAP_SCAN,
            spare == HEADER_SIZE + META_SIZE,
            end == (if prefix@.len() >= spare {
                prefix@.len() - spare
            } else {
                0
            }),
            1024 <= offset,
            offset <= end || offset == 1024,
            declared == declared_page_size(scanned(head@), 0, 0),
            sifted(head@, file_bytes, found@, offset as int),
        decreases end - offset,
    {
        let size: Option<u64> = metadata_page_size(prefix, offset, 1);
        let here: bool = match size {
            Some(page_size) => page_size == offset as u64,
            None => false,
        };
        let first: bool = match declared {
            Some(page_size) => page_size == offset as u64,
            None => false,
        };
        let ghost was = found@;
        let ghost p = offset as u64;
        assert(declares(head@, p) == (here || first));
        if here && !first {
            match try_size(head, file_bytes, offset as u64) {
                Some(info) => {
                    found.push(info);
                },
                None => {},
            }
        }
        proof {
            if plausible(head@, file_bytes, p) {
                reveal(plausible);
            }
            lemma_sift(head@, file_bytes, was, found@, p);
        }
        offset = offset + 1;
    }
    proof {
        lemma_sifted_all(head@, file_bytes, found@, offset as int);
    }
    found
}

#[verifier::rlimit(30)]
#[verifier::spinoff_prover]
proof fn lemma_sift(
    head: Seq<u8>,
    file_bytes: u64,
    was: Seq<FormatInfo>,
    found: Seq<FormatInfo>,
    p: u64,
)
    requires
        sifted(head, file_bytes, was, p as int),
        ({
            let fresh = plausible(head, file_bytes, p) && declared_page_size(scanned(head), 0, 0)
                != Some(p);
            if fresh {
                found == was.push(candidate(head, file_bytes, p)->Ok_0.0) && candidate(
                    head,
                    file_bytes,
                    p,
                )->Ok_0.0.page_size == p
            } else {
                found == was
            }
        }),
    ensures
        sifted(head, file_bytes, found, p + 1),
{
    assert forall|q: u64|
        plausible(head, file_bytes, q) && (q < p + 1 || declared_page_size(scanned(head), 0, 0)
            == Some(q)) implies #[trigger] lists(found, q) by {
        if q < p || declared_page_size(scanned(head), 0, 0) == Some(q) {
            assert(lists(was, q));
            let i = choose|i: int| 0 <= i < was.len() && (#[trigger] was[i]).page_size == q;
            assert(found[i].page_size == q);
        } else {
            assert(found[was.len() as int].page_size == q);
        }
    }
}

proof fn lemma_sifted_all(head: Seq<u8>, file_bytes: u64, found: Seq<FormatInfo>, n: int)
    requires
        sifted(head, file_bytes, found, n),
        n >= scanned(head).len() - (HEADER_SIZE + META_SIZE),
        n <= u64::MAX,
    ensures
        sifted(head, file_bytes, found, 0x1_0000_0000_0000_0000),
{
    assert forall|p: u64| plausible(head, file_bytes, p) implies #[trigger] lists(found, p) by {
        reveal(plausible);
    }
}

} // verus!
