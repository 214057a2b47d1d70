//! What holds of the blocks of a file.

use crate::storage::page::{self, sha3_256, BRANCH_SIZE, CHECKSUM_SIZE, DATA_OFFSET, HEADER_SIZE};
use crate::storage::page::{LEAF_SIZE, META_SIZE, NODE_BUCKET, NODE_DATA, RETIRED_SIZE};
use crate::storage::page::{TYPE_BRANCH, TYPE_FREELIST, TYPE_LEAF, TYPE_META};
use vstd::prelude::*;

verus! {

/// Whether a branch element has its key within the block's data.
pub open spec fn branch_fits(b: Seq<u8>, i: int, limit: int) -> bool {
    let e = page::branch_at(b, i);
    DATA_OFFSET + i * BRANCH_SIZE + e.pos + e.key_size <= limit
}

/// Whether a leaf element is of a known kind and has its key and its value
/// within the block's data.
pub open spec fn leaf_fits(b: Seq<u8>, i: int, limit: int) -> bool {
    let e = page::leaf_at(b, i);
    &&& e.node_type == NODE_BUCKET || e.node_type == NODE_DATA
    &&& DATA_OFFSET + i * LEAF_SIZE + e.pos + e.key_size + e.value_size <= limit
}

/// Whether all that a block says it holds lies within its data.
pub open spec fn holds_itself(b: Seq<u8>, limit: int) -> bool {
    let h = page::header_of(b);
    if h.page_type == TYPE_META {
        DATA_OFFSET + META_SIZE <= limit
    } else if h.page_type == TYPE_FREELIST {
        DATA_OFFSET + h.count * RETIRED_SIZE <= limit
    } else if h.page_type == TYPE_BRANCH {
        &&& DATA_OFFSET + h.count * BRANCH_SIZE <= limit
        &&& forall|i: int| 0 <= i < h.count ==> #[trigger] branch_fits(b, i, limit)
    } else {
        &&& DATA_OFFSET + h.count * LEAF_SIZE <= limit
        &&& forall|i: int| 0 <= i < h.count ==> #[trigger] leaf_fits(b, i, limit)
    }
}

proof fn lemma_branches(b: Seq<u8>, id: u64, n: int, limit: int)
    requires
        limit <= usize::MAX,
        DATA_OFFSET + n * BRANCH_SIZE <= limit,
    ensures
        page::branches_check(b, id, n, limit) is Ok <==> forall|i: int|
            0 <= i < n ==> #[trigger] branch_fits(b, i, limit),
    decreases n,
{
    if n > 0 {
        lemma_branches(b, id, n - 1, limit);
        let rest = forall|i: int| 0 <= i < n - 1 ==> #[trigger] branch_fits(b, i, limit);
        assert((forall|i: int| 0 <= i < n ==> #[trigger] branch_fits(b, i, limit)) <==> rest
            && branch_fits(b, n - 1, limit));
    }
}

proof fn lemma_leaves(b: Seq<u8>, id: u64, n: int, limit: int)
    requires
        limit <= usize::MAX,
        DATA_OFFSET + n * LEAF_SIZE <= limit,
    ensures
        page::leaves_check(b, id, n, limit) is Ok <==> forall|i: int|
            0 <= i < n ==> #[trigger] leaf_fits(b, i, limit),
    decreases n,
{
    if n > 0 {
        lemma_leaves(b, id, n - 1, limit);
        let rest = forall|i: int| 0 <= i < n - 1 ==> #[trigger] leaf_fits(b, i, limit);
        assert((forall|i: int| 0 <= i < n ==> #[trigger] leaf_fits(b, i, limit)) <==> rest
            && leaf_fits(b, n - 1, limit));
    }
}

/// Whether there is a block at a page of a file that is what it says: it lies
/// within the file, it has the page's number and a known type, its checksum is
/// that of its data where its version has one, and all that it holds lies
/// within its data.
pub open spec fn genuine(buf: Seq<u8>, id: u64, pagesize: u64, version: u32) -> bool {
    let offset = id * pagesize;
    let h = page::header_of(buf.skip(offset));
    let len = (h.overflow + 1) * pagesize;
    let b = buf.subrange(offset, offset + len);
    let limit = if version == 1 {
        len
    } else {
        len - CHECKSUM_SIZE
    };
    &&& offset + HEADER_SIZE <= buf.len()
    &&& h.id == id
    &&& h.page_type == TYPE_BRANCH || h.page_type == TYPE_LEAF || h.page_type == TYPE_META
        || h.page_type == TYPE_FREELIST
    &&& h.overflow < u64::MAX
    &&& offset + len <= buf.len()
    &&& limit >= HEADER_SIZE
    &&& version == 1 || sha3_256(b.take(limit)) == b.skip(limit)
    &&& holds_itself(b, limit)
}

/// A block is accepted just where it is genuine, and what is read is then what
/// stands in the file at its page.
pub proof fn law_block_is_accepted_where_genuine(
    buf: Seq<u8>,
    id: u64,
    pagesize: u64,
    version: u32,
)
    requires
        buf.len() <= usize::MAX,
    ensures
        page::block_of(buf, id, pagesize, version) is Ok <==> genuine(buf, id, pagesize, version),
        page::block_of(buf, id, pagesize, version) matches Ok(b) ==> {
            let offset = id * pagesize;
            let h = page::header_of(buf.skip(offset));
            b == buf.subrange(offset, offset + (h.overflow + 1) * pagesize)
        },
{
    let offset = id * pagesize;
    let h = page::header_of(buf.skip(offset));
    let len = (h.overflow + 1) * pagesize;
    let b = buf.subrange(offset, offset + len);
    let limit = len - page::trailer(version);
    assert(offset >= 0) by (nonlinear_arith)
        requires
            offset == id * pagesize,
            id >= 0,
            pagesize >= 0,
    ;
    assert(len >= 0) by (nonlinear_arith)
        requires
            len == (h.overflow + 1) * pagesize,
            h.overflow >= 0,
            pagesize >= 0,
    ;
    if offset + len <= buf.len() && offset + HEADER_SIZE <= buf.len() && limit >= HEADER_SIZE {
        let g = page::header_of(b);
        if g.page_type == TYPE_BRANCH {
            if DATA_OFFSET + g.count * BRANCH_SIZE <= limit {
                lemma_branches(b, g.id, g.count as int, limit);
            }
        } else if g.page_type == TYPE_LEAF {
            if DATA_OFFSET + g.count * LEAF_SIZE <= limit {
                lemma_leaves(b, g.id, g.count as int, limit);
            }
        }
        assert(b[8] == buf.skip(offset)[8]);
    }
}

} // verus!
