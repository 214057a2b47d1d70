//! What holds of the transactions of a journal file.

use crate::bytes;
use crate::format::{Record, RECORD_HEADER_LEN, TX_FOOTER_LEN, TX_HEADER_LEN};
use crate::hash;
use vstd::prelude::*;

verus! {

/// Where a record ends.
pub open spec fn record_end(r: Record) -> int {
    r.value_offset + r.value_len
}

/// Whether a record begins where the one before it ends, and its parts stand
/// one behind the other.
pub open spec fn follows(r: Record, at: int) -> bool {
    &&& r.bucket_offset == at + RECORD_HEADER_LEN
    &&& r.key_offset == r.bucket_offset + r.bucket_len
    &&& r.value_offset == r.key_offset + r.key_len
}

/// Whether records fill the bytes from one place to another, back to back.
pub open spec fn fill(records: Seq<Record>, from: int, end: int) -> bool {
    &&& forall|i: int|
        0 <= i < records.len() ==> follows(
            #[trigger] records[i],
            if i == 0 {
                from
            } else {
                record_end(records[i - 1])
            },
        )
    &&& if records.len() == 0 {
        from == end
    } else {
        record_end(records.last()) == end
    }
}

proof fn lemma_records_fill(s: Seq<u8>, cursor: int, n: nat, end: int)
    requires
        0 <= cursor,
        end <= s.len() <= usize::MAX,
        crate::format::records_at(s, cursor, n, end) is Ok,
    ensures
        ({
            let records = crate::format::records_at(s, cursor, n, end)->Ok_0;
            &&& records.len() == n
            &&& fill(records, cursor, end)
            &&& forall|i: int|
                0 <= i < records.len() ==> crate::format::known_kind((#[trigger] records[i]).kind)
                    && records[i].kind == s[records[i].bucket_offset - RECORD_HEADER_LEN]
        }),
    decreases n,
{
    if n > 0 {
        let first = crate::format::record_at(s, cursor, end)->Ok_0;
        let next = record_end(first);
        lemma_records_fill(s, next, (n - 1) as nat, end);
        let rest = crate::format::records_at(s, next, (n - 1) as nat, end)->Ok_0;
        let records = crate::format::records_at(s, cursor, n, end)->Ok_0;
        assert(records =~= seq![first] + rest);
        assert(follows(first, cursor));
        assert forall|i: int| 0 <= i < records.len() implies follows(
            #[trigger] records[i],
            if i == 0 {
                cursor
            } else {
                record_end(records[i - 1])
            },
        ) by {
            if i > 0 {
                assert(records[i] == rest[i - 1]);
                if i > 1 {
                    assert(records[i - 1] == rest[i - 2]);
                }
            }
        }
        assert forall|i: int| 0 <= i < records.len() implies crate::format::known_kind(
            (#[trigger] records[i]).kind,
        ) && records[i].kind == s[records[i].bucket_offset - RECORD_HEADER_LEN] by {
            if i > 0 {
                assert(records[i] == rest[i - 1]);
            }
        }
        if rest.len() > 0 {
            assert(records.last() == rest.last());
        }
    }
}

/// A number in some bytes is written as those bytes.
proof fn lemma_written(s: Seq<u8>, at: int, n: int)
    requires
        0 <= at <= at + n <= s.len(),
    ensures
        bytes::le_of(bytes::le_at(s, at, n), n as nat) == s.subrange(at, at + n),
        bytes::le_at(s, at, n) < bytes::pow256(n as nat),
{
    bytes::lemma_le_inverse(s.subrange(at, at + n));
}

proof fn lemma_header(s: Seq<u8>, start: int, txid: u64, count: nat, payload: Seq<u8>)
    requires
        0 <= start,
        start + 40 <= s.len(),
        s.subrange(start, start + 8) == crate::format::tx_magic(),
        bytes::le_at(s, start + 8, 4) == TX_HEADER_LEN,
        bytes::le_at(s, start + 12, 4) == count,
        bytes::le_at(s, start + 16, 8) == txid,
        bytes::le_at(s, start + 24, 8) == payload.len(),
        bytes::le_at(s, start + 32, 8) == hash::fnv1a(payload),
    ensures
        s.subrange(start, start + 40) == crate::format::tx_header(txid, count, payload),
{
    lemma_written(s, start + 8, 4);
    lemma_written(s, start + 12, 4);
    lemma_written(s, start + 16, 8);
    lemma_written(s, start + 24, 8);
    lemma_written(s, start + 32, 8);
    let a = s.subrange(start, start + 8) + s.subrange(start + 8, start + 12);
    assert(s.subrange(start, start + 12) =~= a);
    let b = a + s.subrange(start + 12, start + 16);
    assert(s.subrange(start, start + 16) =~= b);
    let c = b + s.subrange(start + 16, start + 24);
    assert(s.subrange(start, start + 24) =~= c);
    let d = c + s.subrange(start + 24, start + 32);
    assert(s.subrange(start, start + 32) =~= d);
    assert(s.subrange(start, start + 40) =~= d + s.subrange(start + 32, start + 40));
}

proof fn lemma_footer(s: Seq<u8>, at: int, txid: u64, payload: Seq<u8>)
    requires
        0 <= at,
        at + 24 <= s.len(),
        s.subrange(at, at + 8) == crate::format::end_magic(),
        bytes::le_at(s, at + 8, 8) == txid,
        bytes::le_at(s, at + 16, 8) == hash::fnv1a(payload),
    ensures
        s.subrange(at, at + 24) == crate::format::tx_footer(txid, payload),
{
    lemma_written(s, at + 8, 8);
    lemma_written(s, at + 16, 8);
    let a = s.subrange(at, at + 8) + s.subrange(at + 8, at + 16);
    assert(s.subrange(at, at + 16) =~= a);
    assert(s.subrange(at, at + 24) =~= a + s.subrange(at + 16, at + 24));
}

/// A transaction that is accepted is whole: its header and its footer are the
/// ones that are written for its payload, with its number of records and its
/// checksum, and its records fill the payload back to back.
pub proof fn law_accepted_transaction_is_whole(s: Seq<u8>, start: int)
    requires
        0 <= start <= s.len() <= usize::MAX,
        crate::format::transaction_at(s, start) matches Ok(Some(_)),
    ensures
        ({
            let tx = crate::format::transaction_at(s, start)->Ok_0->0;
            let from = start + TX_HEADER_LEN;
            let to = tx.end - TX_FOOTER_LEN;
            let payload = s.subrange(from, to);
            &&& from <= to
            &&& tx.end <= s.len()
            &&& s.subrange(start, from) == crate::format::tx_header(tx.txid, tx.records.len(), payload)
            &&& s.subrange(to, tx.end as int) == crate::format::tx_footer(tx.txid, payload)
            &&& fill(tx.records, from, to)
            &&& forall|i: int|
                0 <= i < tx.records.len() ==> crate::format::known_kind((#[trigger] tx.records[i]).kind)
        }),
{
    let tx = crate::format::transaction_at(s, start)->Ok_0->0;
    let from = start + TX_HEADER_LEN;
    let to = tx.end - TX_FOOTER_LEN;
    let payload = s.subrange(from, to);
    let count = bytes::le_at(s, start + 12, 4);
    lemma_written(s, start + 16, 8);
    bytes::lemma_pow256_widths();
    lemma_records_fill(s, from, count, to);
    lemma_header(s, start, tx.txid, count, payload);
    lemma_footer(s, to, tx.txid, payload);
}

} // verus!
