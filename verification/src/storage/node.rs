//! Nodes of a tree in memory, and how they are laid out in a block.

use crate::bytes::{self, append, push_u64_le};
use crate::error::Error;
use crate::storage::page::{
    self, sha3_256, BRANCH_SIZE, CHECKSUM_SIZE, DATA_OFFSET, HEADER_SIZE,
    LEAF_SIZE, NODE_BUCKET, NODE_DATA, TYPE_BRANCH, TYPE_LEAF,
};
use vstd::prelude::*;

verus! {

/// A child of a branch: its page and its first key.
#[derive(Debug)]
pub struct Branch {
    pub key: Vec<u8>,
    pub page: u64,
}

/// An entry of a leaf: a value, or the record of a bucket.
#[derive(Debug)]
pub struct LeafEntry {
    pub node_type: u8,
    pub key: Vec<u8>,
    pub value: Vec<u8>,
}

/// What a node holds.
#[derive(Debug)]
pub enum NodeData {
    Branches(Vec<Branch>),
    Leaves(Vec<LeafEntry>),
}

/// A node of a tree.
#[derive(Debug)]
pub struct Node {
    pub page_id: u64,
    pub data: NodeData,
}

/// Where the data of the leaf entry `i` stands, counted from its element.
pub open spec fn leaf_pos(leaves: Seq<LeafEntry>, i: int) -> int {
    (leaves.len() - i) * LEAF_SIZE + bytes::cat(leaf_data(leaves).take(i)).len()
}

/// The bytes of leaf entries.
pub open spec fn leaf_data(leaves: Seq<LeafEntry>) -> Seq<Seq<u8>> {
    leaves.map_values(|l: LeafEntry| l.key@ + l.value@)
}

/// The fixed part of the leaf entry `i`.
pub open spec fn leaf_head(leaves: Seq<LeafEntry>, i: int) -> Seq<u8> {
    seq![leaves[i].node_type, 0, 0, 0, 0, 0, 0, 0] + bytes::le_of(
        leaf_pos(leaves, i) as nat,
        8,
    ) + bytes::le_of(leaves[i].key@.len(), 8) + bytes::le_of(leaves[i].value@.len(), 8)
}

/// The fixed parts of leaf entries.
pub open spec fn leaf_heads(leaves: Seq<LeafEntry>) -> Seq<Seq<u8>> {
    Seq::new(leaves.len(), |i: int| leaf_head(leaves, i))
}

/// The bytes of branch entries.
pub open spec fn branch_data(branches: Seq<Branch>) -> Seq<Seq<u8>> {
    branches.map_values(|b: Branch| b.key@)
}

/// Where the key of the branch entry `i` stands, counted from its element.
pub open spec fn branch_pos(branches: Seq<Branch>, i: int) -> int {
    (branches.len() - i) * BRANCH_SIZE + bytes::cat(branch_data(branches).take(i)).len()
}

/// The fixed part of the branch entry `i`.
pub open spec fn branch_head(branches: Seq<Branch>, i: int) -> Seq<u8> {
    bytes::le_of(branches[i].page as nat, 8) + bytes::le_of(branches[i].key@.len(), 8)
        + bytes::le_of(branch_pos(branches, i) as nat, 8)
}

/// The fixed parts of branch entries.
pub open spec fn branch_heads(branches: Seq<Branch>) -> Seq<Seq<u8>> {
    Seq::new(branches.len(), |i: int| branch_head(branches, i))
}

impl NodeData {
    pub open spec fn page_type(self) -> u8 {
        match self {
            NodeData::Branches(_) => TYPE_BRANCH,
            NodeData::Leaves(_) => TYPE_LEAF,
        }
    }

    /// How many entries there are.
    pub open spec fn count(self) -> nat {
        match self {
            NodeData::Branches(b) => b@.len(),
            NodeData::Leaves(l) => l@.len(),
        }
    }

    /// The entries as they are written: the fixed parts, and then the data.
    pub open spec fn body(self) -> Seq<u8> {
        match self {
            NodeData::Branches(b) => bytes::cat(branch_heads(b@)) + bytes::cat(branch_data(b@)),
            NodeData::Leaves(l) => bytes::cat(leaf_heads(l@)) + bytes::cat(leaf_data(l@)),
        }
    }
}

/// The header of a block.
pub open spec fn block_header(id: u64, page_type: u8, count: nat, overflow: u64) -> Seq<u8> {
    bytes::le_of(id as nat, 8) + seq![page_type, 0, 0, 0, 0, 0, 0, 0] + bytes::le_of(count, 8)
        + bytes::le_of(overflow as nat, 8)
}

/// A node in a block of `len` bytes, before it is sealed.
pub open spec fn node_block(n: Node, overflow: u64, len: int) -> Seq<u8> {
    let filled = block_header(n.page_id, n.data.page_type(), n.data.count(), overflow)
        + n.data.body();
    filled + bytes::zeros((len - filled.len()) as nat)
}

/// Appends the header of a block.
pub fn push_block_header(out: &mut Vec<u8>, id: u64, page_type: u8, count: u64, overflow: u64)
    ensures
        final(out)@ == old(out)@ + block_header(id, page_type, count as nat, overflow),
{
    let ghost was = out@;
    push_u64_le(out, id);
    out.push(page_type);
    out.push(0);
    out.push(0);
    out.push(0);
    out.push(0);
    out.push(0);
    out.push(0);
    out.push(0);
    push_u64_le(out, count);
    push_u64_le(out, overflow);
    assert(out@ =~= was + block_header(id, page_type, count as nat, overflow));
}

pub proof fn lemma_block_header_len(id: u64, page_type: u8, count: nat, overflow: u64)
    ensures
        block_header(id, page_type, count, overflow).len() == DATA_OFFSET,
{
    bytes::lemma_le_of_len(id as nat, 8);
    bytes::lemma_le_of_len(count, 8);
    bytes::lemma_le_of_len(overflow as nat, 8);
}

/// Whether a node fits a block of `len` bytes together with its checksum.
pub open spec fn node_fits(n: Node, len: int) -> bool {
    DATA_OFFSET + n.data.body().len() + CHECKSUM_SIZE <= len
}

pub proof fn lemma_leaf_heads_len(leaves: Seq<LeafEntry>)
    ensures
        bytes::cat(leaf_heads(leaves)).len() == leaves.len() * LEAF_SIZE,
        forall|i: int| 0 <= i < leaves.len() ==> (#[trigger] leaf_heads(leaves)[i]).len()
            == LEAF_SIZE,
{
    let s = leaf_heads(leaves);
    assert forall|i: int| 0 <= i < s.len() implies (#[trigger] s[i]).len() == LEAF_SIZE by {
        bytes::lemma_le_of_len(leaf_pos(leaves, i) as nat, 8);
        bytes::lemma_le_of_len(leaves[i].key@.len(), 8);
        bytes::lemma_le_of_len(leaves[i].value@.len(), 8);
    }
    bytes::lemma_cat_fixed(s, LEAF_SIZE as int);
}

proof fn lemma_branch_heads_len(branches: Seq<Branch>)
    ensures
        bytes::cat(branch_heads(branches)).len() == branches.len() * BRANCH_SIZE,
        forall|i: int| 0 <= i < branches.len() ==> (#[trigger] branch_heads(branches)[i]).len()
            == BRANCH_SIZE,
{
    let s = branch_heads(branches);
    assert forall|i: int| 0 <= i < s.len() implies (#[trigger] s[i]).len() == BRANCH_SIZE by {
        bytes::lemma_le_of_len(branches[i].page as nat, 8);
        bytes::lemma_le_of_len(branches[i].key@.len(), 8);
        bytes::lemma_le_of_len(branch_pos(branches, i) as nat, 8);
    }
    bytes::lemma_cat_fixed(s, BRANCH_SIZE as int);
}

fn push_leaves(out: &mut Vec<u8>, leaves: &Vec<LeafEntry>)
    requires
        leaves@.len() * LEAF_SIZE + bytes::cat(leaf_data(leaves@)).len() <= usize::MAX,
    ensures
        final(out)@ == old(out)@ + bytes::cat(leaf_heads(leaves@)) + bytes::cat(
            leaf_data(leaves@),
        ),
{
    let ghost was = out@;
    let ghost heads = leaf_heads(leaves@);
    let ghost data = leaf_data(leaves@);
    proof {
        lemma_leaf_heads_len(leaves@);
        assert(heads.take(0) =~= Seq::<Seq<u8>>::empty());
        assert(data.take(0) =~= Seq::<Seq<u8>>::empty());
        assert(was + bytes::cat(heads.take(0)) =~= was);
    }
    let n: usize = leaves.len();
    let mut size: usize = 0;
    let mut i: usize = 0;
    while i < n
        invariant
            i <= n == leaves@.len(),
            heads == leaf_heads(leaves@),
            data == leaf_data(leaves@),
            n * LEAF_SIZE + bytes::cat(data).len() <= usize::MAX,
            size == bytes::cat(data.take(i as int)).len(),
            out@ == was + bytes::cat(heads.take(i as int)),
        decreases n - i,
    {
        let ghost before = out@;
        let leaf: &LeafEntry = &leaves[i];
        proof {
            bytes::lemma_cat_piece(heads, i as int);
            bytes::lemma_cat_piece(data, i as int);
            assert(data[i as int] == leaf.key@ + leaf.value@);
            assert((n - i) * LEAF_SIZE <= n * LEAF_SIZE);
        }
        let pos: u64 = (n - i) as u64 * LEAF_SIZE as u64 + size as u64;
        out.push(leaf.node_type);
        out.push(0);
        out.push(0);
        out.push(0);
        out.push(0);
        out.push(0);
        out.push(0);
        out.push(0);
        push_u64_le(out, pos);
        push_u64_le(out, leaf.key.len() as u64);
        push_u64_le(out, leaf.value.len() as u64);
        size = size + leaf.key.len() + leaf.value.len();
        proof {
            assert(pos == leaf_pos(leaves@, i as int));
            assert(out@ =~= before + leaf_head(leaves@, i as int));
            assert(heads[i as int] == leaf_head(leaves@, i as int));
            assert(out@ =~= was + bytes::cat(heads.take(i + 1)));
        }
        i = i + 1;
    }
    proof {
        assert(heads.take(n as int) =~= heads);
    }
    let ghost mid = out@;
    let mut k: usize = 0;
    assert(mid + bytes::cat(data.take(0)) =~= mid);
    while k < n
        invariant
            k <= n == leaves@.len(),
            data == leaf_data(leaves@),
            out@ == mid + bytes::cat(data.take(k as int)),
        decreases n - k,
    {
        let ghost before = out@;
        append(out, &leaves[k].key);
        append(out, &leaves[k].value);
        proof {
            bytes::lemma_cat_piece(data, k as int);
            assert(data[k as int] == leaves@[k as int].key@ + leaves@[k as int].value@);
            assert(out@ =~= mid + bytes::cat(data.take(k + 1)));
        }
        k = k + 1;
    }
    assert(data.take(n as int) =~= data);
}

fn push_branches(out: &mut Vec<u8>, branches: &Vec<Branch>)
    requires
        branches@.len() * BRANCH_SIZE + bytes::cat(branch_data(branches@)).len() <= usize::MAX,
    ensures
        final(out)@ == old(out)@ + bytes::cat(branch_heads(branches@)) + bytes::cat(
            branch_data(branches@),
        ),
{
    let ghost was = out@;
    let ghost heads = branch_heads(branches@);
    let ghost data = branch_data(branches@);
    proof {
        lemma_branch_heads_len(branches@);
        assert(heads.take(0) =~= Seq::<Seq<u8>>::empty());
        assert(data.take(0) =~= Seq::<Seq<u8>>::empty());
        assert(was + bytes::cat(heads.take(0)) =~= was);
    }
    let n: usize = branches.len();
    let mut size: usize = 0;
    let mut i: usize = 0;
    while i < n
        invariant
            i <= n == branches@.len(),
            heads == branch_heads(branches@),
            data == branch_data(branches@),
            n * BRANCH_SIZE + bytes::cat(data).len() <= usize::MAX,
            size == bytes::cat(data.take(i as int)).len(),
            out@ == was + bytes::cat(heads.take(i as int)),
        decreases n - i,
    {
        let ghost before = out@;
        let branch: &Branch = &branches[i];
        proof {
            bytes::lemma_cat_piece(heads, i as int);
            bytes::lemma_cat_piece(data, i as int);
            assert(data[i as int] == branch.key@);
            assert((n - i) * BRANCH_SIZE <= n * BRANCH_SIZE);
        }
        let pos: u64 = (n - i) as u64 * BRANCH_SIZE as u64 + size as u64;
        push_u64_le(out, branch.page);
        push_u64_le(out, branch.key.len() as u64);
        push_u64_le(out, pos);
        size = size + branch.key.len();
        proof {
            assert(pos == branch_pos(branches@, i as int));
            assert(out@ =~= before + branch_head(branches@, i as int));
            assert(heads[i as int] == branch_head(branches@, i as int));
            assert(out@ =~= was + bytes::cat(heads.take(i + 1)));
        }
        i = i + 1;
    }
    proof {
        assert(heads.take(n as int) =~= heads);
    }
    let ghost mid = out@;
    let mut k: usize = 0;
    assert(mid + bytes::cat(data.take(0)) =~= mid);
    while k < n
        invariant
            k <= n == branches@.len(),
            data == branch_data(branches@),
            out@ == mid + bytes::cat(data.take(k as int)),
        decreases n - k,
    {
        let ghost before = out@;
        append(out, &branches[k].key);
        proof {
            bytes::lemma_cat_piece(data, k as int);
            assert(data[k as int] == branches@[k as int].key@);
            assert(out@ =~= mid + bytes::cat(data.take(k + 1)));
        }
        k = k + 1;
    }
    assert(data.take(n as int) =~= data);
}

/// Lays a node out in a block of `len` bytes, which is then to be sealed.
pub fn write_node(n: &Node, overflow: u64, len: usize) -> (r: Vec<u8>)
    requires
        node_fits(*n, len as int),
    ensures
        r@ == node_block(*n, overflow, len as int),
        r@.len() == len,
{
    let mut out: Vec<u8> = Vec::new();
    match &n.data {
        NodeData::Branches(branches) => {
            proof {
                lemma_branch_heads_len(branches@);
            }
            push_block_header(&mut out, n.page_id, TYPE_BRANCH, branches.len() as u64, overflow);
            push_branches(&mut out, branches);
        },
        NodeData::Leaves(leaves) => {
            proof {
                lemma_leaf_heads_len(leaves@);
            }
            push_block_header(&mut out, n.page_id, TYPE_LEAF, leaves.len() as u64, overflow);
            push_leaves(&mut out, leaves);
        },
    }
    proof {
        lemma_block_header_len(n.page_id, n.data.page_type(), n.data.count(), overflow);
        assert(out@ =~= block_header(n.page_id, n.data.page_type(), n.data.count(), overflow)
            + n.data.body());
    }
    let missing: usize = len - out.len();
    crate::page::push_zeros(&mut out, missing);
    out
}

/// What the header of a written node reads as.
pub proof fn lemma_header_reads(b: Seq<u8>, id: u64, page_type: u8, count: nat, overflow: u64)
    requires
        b.len() >= DATA_OFFSET,
        b.subrange(0, DATA_OFFSET as int) == block_header(id, page_type, count, overflow),
        count <= u64::MAX,
    ensures
        page::header_of(b) == (page::PageHeader { id, page_type, count: count as u64, overflow }),
{
    let w = block_header(id, page_type, count, overflow);
    bytes::lemma_le_of_len(id as nat, 8);
    bytes::lemma_le_of_len(count, 8);
    bytes::lemma_le_of_len(overflow as nat, 8);
    bytes::lemma_pow256_widths();
    assert(w.subrange(0, 8) =~= bytes::le_of(id as nat, 8));
    assert(w.subrange(16, 24) =~= bytes::le_of(count, 8));
    assert(w.subrange(24, 32) =~= bytes::le_of(overflow as nat, 8));
    assert(b.subrange(0, 8) =~= w.subrange(0, 8));
    assert(b.subrange(16, 24) =~= w.subrange(16, 24));
    assert(b.subrange(24, 32) =~= w.subrange(24, 32));
    bytes::lemma_le_field(b, 0, id as nat, 8);
    bytes::lemma_le_field(b, 16, count, 8);
    bytes::lemma_le_field(b, 24, overflow as nat, 8);
    assert(b[8] == w[8]) by {
        assert(b.subrange(0, 32)[8] == b[8]);
    }
}

/// Whether the front of a block is a node as it is written.
pub open spec fn block_holds(b: Seq<u8>, n: Node, overflow: u64) -> bool {
    let filled = block_header(n.page_id, n.data.page_type(), n.data.count(), overflow)
        + n.data.body();
    filled.len() <= b.len() <= usize::MAX && b.take(filled.len() as int) == filled
}

#[verifier::rlimit(40)]
#[verifier::spinoff_prover]
proof fn lemma_leaf_reads(b: Seq<u8>, n: Node, overflow: u64, leaves: Seq<LeafEntry>, i: int)
    requires
        block_holds(b, n, overflow),
        n.data matches NodeData::Leaves(l) && l@ == leaves,
        0 <= i < leaves.len(),
    ensures
        page::leaf_at(b, i) == (page::LeafElement {
            node_type: leaves[i].node_type,
            pos: leaf_pos(leaves, i) as u64,
            key_size: leaves[i].key@.len() as u64,
            value_size: leaves[i].value@.len() as u64,
        }),
        page::leaf_key(b, i) == leaves[i].key@,
        page::leaf_value(b, i) == leaves[i].value@,
        DATA_OFFSET + i * LEAF_SIZE + leaf_pos(leaves, i) + leaves[i].key@.len()
            + leaves[i].value@.len() <= DATA_OFFSET + n.data.body().len(),
        leaf_pos(leaves, i) + leaves[i].key@.len() + leaves[i].value@.len() <= b.len(),
{
    let head = block_header(n.page_id, n.data.page_type(), n.data.count(), overflow);
    let heads = leaf_heads(leaves);
    let data = leaf_data(leaves);
    let filled = head + n.data.body();
    let count = leaves.len() as int;
    lemma_block_header_len(n.page_id, n.data.page_type(), n.data.count(), overflow);
    lemma_leaf_heads_len(leaves);
    bytes::lemma_cat_piece(heads, i);
    bytes::lemma_cat_piece(data, i);
    let front = heads.take(i);
    assert forall|k: int| 0 <= k < front.len() implies (#[trigger] front[k]).len()
        == LEAF_SIZE by {
        assert(front[k] == heads[k]);
    }
    bytes::lemma_cat_fixed(front, LEAF_SIZE as int);
    let at = DATA_OFFSET + i * LEAF_SIZE;
    let w = leaf_head(leaves, i);
    let pos = leaf_pos(leaves, i);
    let klen = leaves[i].key@.len() as int;
    let vlen = leaves[i].value@.len() as int;
    assert(heads[i] == w);
    assert(w.len() == LEAF_SIZE);
    assert(filled.subrange(at, at + LEAF_SIZE) =~= bytes::cat(heads).subrange(
        i * LEAF_SIZE,
        i * LEAF_SIZE + LEAF_SIZE,
    ));
    assert(b.subrange(at, at + LEAF_SIZE) =~= filled.subrange(at, at + LEAF_SIZE)) by {
        assert(b.take(filled.len() as int).subrange(at, at + LEAF_SIZE) =~= b.subrange(
            at,
            at + LEAF_SIZE,
        ));
    }
    bytes::lemma_le_of_len(pos as nat, 8);
    bytes::lemma_le_of_len(leaves[i].key@.len(), 8);
    bytes::lemma_le_of_len(leaves[i].value@.len(), 8);
    bytes::lemma_pow256_widths();
    assert(w.subrange(8, 16) =~= bytes::le_of(pos as nat, 8));
    assert(w.subrange(16, 24) =~= bytes::le_of(leaves[i].key@.len(), 8));
    assert(w.subrange(24, 32) =~= bytes::le_of(leaves[i].value@.len(), 8));
    assert(b.subrange(at + 8, at + 16) =~= w.subrange(8, 16)) by {
        assert(b.subrange(at, at + LEAF_SIZE).subrange(8, 16) =~= b.subrange(at + 8, at + 16));
    }
    assert(b.subrange(at + 16, at + 24) =~= w.subrange(16, 24)) by {
        assert(b.subrange(at, at + LEAF_SIZE).subrange(16, 24) =~= b.subrange(at + 16, at + 24));
    }
    assert(b.subrange(at + 24, at + 32) =~= w.subrange(24, 32)) by {
        assert(b.subrange(at, at + LEAF_SIZE).subrange(24, 32) =~= b.subrange(at + 24, at + 32));
    }
    let off = bytes::cat(data.take(i)).len() as int;
    assert(at + pos == DATA_OFFSET + count * LEAF_SIZE + off) by (nonlinear_arith)
        requires
            at == DATA_OFFSET + i * LEAF_SIZE,
            pos == (count - i) * LEAF_SIZE + off,
    ;
    assert(data[i] == leaves[i].key@ + leaves[i].value@);
    assert(pos >= 0);
    bytes::lemma_le_field(b, at + 8, pos as nat, 8);
    bytes::lemma_le_field(b, at + 16, leaves[i].key@.len(), 8);
    bytes::lemma_le_field(b, at + 24, leaves[i].value@.len(), 8);
    assert(b[at] == w[0]) by {
        assert(b.subrange(at, at + LEAF_SIZE)[0] == b[at]);
    }
    let start = at + pos;
    assert(filled.subrange(start, start + klen + vlen) =~= data[i]) by {
        assert(bytes::cat(data).subrange(off, off + klen + vlen) == data[i]);
        assert(filled.subrange(start, start + klen + vlen) =~= bytes::cat(data).subrange(
            off,
            off + klen + vlen,
        ));
    }
    assert(b.subrange(start, start + klen + vlen) =~= data[i]) by {
        assert(b.take(filled.len() as int).subrange(start, start + klen + vlen) =~= b.subrange(
            start,
            start + klen + vlen,
        ));
    }
    assert(b.subrange(start, start + klen) =~= leaves[i].key@) by {
        assert(b.subrange(start, start + klen + vlen).subrange(0, klen) =~= b.subrange(
            start,
            start + klen,
        ));
        assert(data[i].subrange(0, klen) =~= leaves[i].key@);
    }
    assert(b.subrange(start + klen, start + klen + vlen) =~= leaves[i].value@) by {
        assert(b.subrange(start, start + klen + vlen).subrange(klen, klen + vlen) =~= b.subrange(
            start + klen,
            start + klen + vlen,
        ));
        assert(data[i].subrange(klen, klen + vlen) =~= leaves[i].value@);
    }
}

#[verifier::rlimit(40)]
#[verifier::spinoff_prover]
proof fn lemma_branch_reads(b: Seq<u8>, n: Node, overflow: u64, branches: Seq<Branch>, i: int)
    requires
        block_holds(b, n, overflow),
        n.data matches NodeData::Branches(l) && l@ == branches,
        0 <= i < branches.len(),
    ensures
        page::branch_at(b, i) == (page::BranchElement {
            page: branches[i].page,
            key_size: branches[i].key@.len() as u64,
            pos: branch_pos(branches, i) as u64,
        }),
        page::branch_key(b, i) == branches[i].key@,
        DATA_OFFSET + i * BRANCH_SIZE + branch_pos(branches, i) + branches[i].key@.len()
            <= DATA_OFFSET + n.data.body().len(),
        branch_pos(branches, i) + branches[i].key@.len() <= b.len(),
{
    let head = block_header(n.page_id, n.data.page_type(), n.data.count(), overflow);
    let heads = branch_heads(branches);
    let data = branch_data(branches);
    let filled = head + n.data.body();
    let count = branches.len() as int;
    lemma_block_header_len(n.page_id, n.data.page_type(), n.data.count(), overflow);
    lemma_branch_heads_len(branches);
    bytes::lemma_cat_piece(heads, i);
    bytes::lemma_cat_piece(data, i);
    let front = heads.take(i);
    assert forall|k: int| 0 <= k < front.len() implies (#[trigger] front[k]).len()
        == BRANCH_SIZE by {
        assert(front[k] == heads[k]);
    }
    bytes::lemma_cat_fixed(front, BRANCH_SIZE as int);
    let at = DATA_OFFSET + i * BRANCH_SIZE;
    let w = branch_head(branches, i);
    let pos = branch_pos(branches, i);
    let klen = branches[i].key@.len() as int;
    assert(heads[i] == w);
    assert(w.len() == BRANCH_SIZE);
    assert(filled.subrange(at, at + BRANCH_SIZE) =~= bytes::cat(heads).subrange(
        i * BRANCH_SIZE,
        i * BRANCH_SIZE + BRANCH_SIZE,
    ));
    assert(b.subrange(at, at + BRANCH_SIZE) =~= filled.subrange(at, at + BRANCH_SIZE)) by {
        assert(b.take(filled.len() as int).subrange(at, at + BRANCH_SIZE) =~= b.subrange(
            at,
            at + BRANCH_SIZE,
        ));
    }
    bytes::lemma_le_of_len(pos as nat, 8);
    bytes::lemma_le_of_len(branches[i].key@.len(), 8);
    bytes::lemma_le_of_len(branches[i].page as nat, 8);
    bytes::lemma_pow256_widths();
    assert(w.subrange(0, 8) =~= bytes::le_of(branches[i].page as nat, 8));
    assert(w.subrange(8, 16) =~= bytes::le_of(branches[i].key@.len(), 8));
    assert(w.subrange(16, 24) =~= bytes::le_of(pos as nat, 8));
    assert(b.subrange(at, at + 8) =~= w.subrange(0, 8)) by {
        assert(b.subrange(at, at + BRANCH_SIZE).subrange(0, 8) =~= b.subrange(at, at + 8));
    }
    assert(b.subrange(at + 8, at + 16) =~= w.subrange(8, 16)) by {
        assert(b.subrange(at, at + BRANCH_SIZE).subrange(8, 16) =~= b.subrange(at + 8, at + 16));
    }
    assert(b.subrange(at + 16, at + 24) =~= w.subrange(16, 24)) by {
        assert(b.subrange(at, at + BRANCH_SIZE).subrange(16, 24) =~= b.subrange(
            at + 16,
            at + 24,
        ));
    }
    let off = bytes::cat(data.take(i)).len() as int;
    assert(at + pos == DATA_OFFSET + count * BRANCH_SIZE + off) by (nonlinear_arith)
        requires
            at == DATA_OFFSET + i * BRANCH_SIZE,
            pos == (count - i) * BRANCH_SIZE + off,
    ;
    assert(data[i] == branches[i].key@);
    assert(pos >= 0);
    bytes::lemma_le_field(b, at, branches[i].page as nat, 8);
    bytes::lemma_le_field(b, at + 8, branches[i].key@.len(), 8);
    bytes::lemma_le_field(b, at + 16, pos as nat, 8);
    let start = at + pos;
    assert(filled.subrange(start, start + klen) =~= data[i]) by {
        assert(bytes::cat(data).subrange(off, off + klen) == data[i]);
        assert(filled.subrange(start, start + klen) =~= bytes::cat(data).subrange(
            off,
            off + klen,
        ));
    }
    assert(b.subrange(start, start + klen) =~= data[i]) by {
        assert(b.take(filled.len() as int).subrange(start, start + klen) =~= b.subrange(
            start,
            start + klen,
        ));
    }
}

proof fn lemma_leaves_pass(
    b: Seq<u8>,
    n: Node,
    overflow: u64,
    leaves: Seq<LeafEntry>,
    k: int,
    limit: int,
)
    requires
        block_holds(b, n, overflow),
        n.data matches NodeData::Leaves(l) && l@ == leaves,
        0 <= k <= leaves.len(),
        DATA_OFFSET + n.data.body().len() <= limit,
        forall|i: int|
            0 <= i < leaves.len() ==> (#[trigger] leaves[i]).node_type == NODE_DATA
                || leaves[i].node_type == NODE_BUCKET,
    ensures
        page::leaves_check(b, n.page_id, k, limit) == Ok::<(), Error>(()),
    decreases k,
{
    if k > 0 {
        lemma_leaves_pass(b, n, overflow, leaves, k - 1, limit);
        lemma_leaf_reads(b, n, overflow, leaves, k - 1);
        lemma_block_header_len(n.page_id, n.data.page_type(), n.data.count(), overflow);
        assert(leaves[k - 1].node_type == NODE_DATA || leaves[k - 1].node_type == NODE_BUCKET);
    }
}

proof fn lemma_branches_pass(
    b: Seq<u8>,
    n: Node,
    overflow: u64,
    branches: Seq<Branch>,
    k: int,
    limit: int,
)
    requires
        block_holds(b, n, overflow),
        n.data matches NodeData::Branches(l) && l@ == branches,
        0 <= k <= branches.len(),
        DATA_OFFSET + n.data.body().len() <= limit,
    ensures
        page::branches_check(b, n.page_id, k, limit) == Ok::<(), Error>(()),
    decreases k,
{
    if k > 0 {
        lemma_branches_pass(b, n, overflow, branches, k - 1, limit);
        lemma_branch_reads(b, n, overflow, branches, k - 1);
        lemma_block_header_len(n.page_id, n.data.page_type(), n.data.count(), overflow);
    }
}

/// Whether a block reads as a node: the same entries, in the same order.
pub open spec fn block_reads(b: Seq<u8>, n: Node) -> bool {
    match n.data {
        NodeData::Branches(branches) => forall|i: int|
            0 <= i < branches@.len() ==> (#[trigger] page::branch_at(b, i)).page
                == branches@[i].page && page::branch_key(b, i) == branches@[i].key@,
        NodeData::Leaves(leaves) => forall|i: int|
            0 <= i < leaves@.len() ==> (#[trigger] page::leaf_at(b, i)).node_type
                == leaves@[i].node_type && page::leaf_key(b, i) == leaves@[i].key@
                && page::leaf_value(b, i) == leaves@[i].value@,
    }
}

/// Whether the entries of a node are of known kinds.
pub open spec fn known_entries(n: Node) -> bool {
    match n.data {
        NodeData::Branches(_) => true,
        NodeData::Leaves(leaves) => forall|i: int|
            0 <= i < leaves@.len() ==> (#[trigger] leaves@[i]).node_type == NODE_DATA
                || leaves@[i].node_type == NODE_BUCKET,
    }
}

/// A node that was laid out, sealed if its version of the format asks for it,
/// and written is a valid block of its file, and reads back as the same
/// entries.
#[verifier::rlimit(40)]
#[verifier::spinoff_prover]
pub proof fn law_written_node_reads_back(
    buf: Seq<u8>,
    n: Node,
    overflow: u64,
    pagesize: u64,
    version: u32,
    b: Seq<u8>,
)
    requires
        known_entries(n),
        overflow < u64::MAX,
        b.len() == (overflow + 1) * pagesize,
        node_fits(n, b.len() as int),
        b.len() >= HEADER_SIZE + CHECKSUM_SIZE,
        b == page::sealed_in(node_block(n, overflow, b.len() as int), version),
        n.page_id * pagesize + b.len() <= buf.len() <= usize::MAX,
        buf.subrange(n.page_id * pagesize, n.page_id * pagesize + b.len()) == b,
    ensures
        page::block_of(buf, n.page_id, pagesize, version) == Ok::<
            Seq<u8>,
            Error,
        >(b),
        page::header_of(b) == (page::PageHeader {
            id: n.page_id,
            page_type: n.data.page_type(),
            count: n.data.count() as u64,
            overflow,
        }),
        block_reads(b, n),
{
    let len = b.len() as int;
    let limit = len - page::trailer(version);
    let data = len - CHECKSUM_SIZE;
    let offset = n.page_id * pagesize;
    let whole = node_block(n, overflow, len);
    let head = block_header(n.page_id, n.data.page_type(), n.data.count(), overflow);
    let filled = head + n.data.body();
    lemma_block_header_len(n.page_id, n.data.page_type(), n.data.count(), overflow);
    assert(whole.len() == len);
    if version != 1 {
        assert(b.take(limit) =~= whole.take(limit)) by {
            assert(b.len() == whole.take(limit).len() + sha3_256(whole.take(limit)).len());
        }
        assert(b.skip(limit) =~= sha3_256(whole.take(limit)));
    }
    assert(b.take(filled.len() as int) =~= filled) by {
        assert(b.take(data) =~= whole.take(data));
        assert(b.take(data).take(filled.len() as int) =~= b.take(filled.len() as int));
        assert(whole.take(data).take(filled.len() as int) =~= filled);
    }
    assert(block_holds(b, n, overflow));
    assert(b.subrange(0, 32) =~= head) by {
        assert(b.take(filled.len() as int).subrange(0, 32) =~= b.subrange(0, 32));
    }
    match n.data {
        NodeData::Branches(branches) => {
            lemma_branch_heads_len(branches@);
            assert(n.data.count() <= u64::MAX);
            lemma_header_reads(b, n.page_id, n.data.page_type(), n.data.count(), overflow);
            lemma_branches_pass(b, n, overflow, branches@, branches@.len() as int, limit);
            assert forall|i: int| 0 <= i < branches@.len() implies (#[trigger] page::branch_at(
                b,
                i,
            )).page == branches@[i].page && page::branch_key(b, i) == branches@[i].key@ by {
                lemma_branch_reads(b, n, overflow, branches@, i);
            }
        },
        NodeData::Leaves(leaves) => {
            lemma_leaf_heads_len(leaves@);
            assert(n.data.count() <= u64::MAX);
            lemma_header_reads(b, n.page_id, n.data.page_type(), n.data.count(), overflow);
            lemma_leaves_pass(b, n, overflow, leaves@, leaves@.len() as int, limit);
            assert forall|i: int| 0 <= i < leaves@.len() implies (#[trigger] page::leaf_at(
                b,
                i,
            )).node_type == leaves@[i].node_type && page::leaf_key(b, i) == leaves@[i].key@
                && page::leaf_value(b, i) == leaves@[i].value@ by {
                lemma_leaf_reads(b, n, overflow, leaves@, i);
            }
        },
    }
    assert(offset >= 0) by (nonlinear_arith)
        requires
            offset == n.page_id * pagesize,
            n.page_id >= 0,
            pagesize >= 0,
    ;
    let rest = buf.skip(offset);
    assert(rest.take(len) =~= b);
    page::lemma_header_local(rest, b);
    assert(page::layout_check(b, limit) == Ok::<(), Error>(()));
}

} // verus!
