//! The append-only journal format: a file header, then framed transactions.
//!
//! A transaction is a header, its records back to back, and a footer that
//! repeats the transaction number and the checksum of the records.

use crate::bytes::{self, append, push_u32_le, push_u64_le, same, u32_le_at, u64_le_at};
use crate::error::Error;
use crate::hash::{self, hash};
use vstd::prelude::*;
use vstd::slice::slice_subrange;

verus! {

pub const FILE_HEADER_LEN: usize = 64;

pub const TX_HEADER_LEN: usize = 40;

pub const TX_FOOTER_LEN: usize = 24;

pub const RECORD_HEADER_LEN: usize = 16;

pub const VERSION: u32 = 1;

pub const CREATE_BUCKET: u8 = 1;

pub const DELETE_BUCKET: u8 = 2;

pub const PUT: u8 = 3;

pub const DELETE: u8 = 4;

/// A journalled operation: kind, bucket, key, value.
pub type Operation = (u8, Vec<u8>, Vec<u8>, Vec<u8>);

/// An operation by the values it holds.
pub type OperationView = (u8, Seq<u8>, Seq<u8>, Seq<u8>);

/// Where a record and its three byte strings stand in the file.
#[derive(Clone, Copy, Debug)]
pub struct Record {
    pub kind: u8,
    pub bucket_offset: usize,
    pub bucket_len: usize,
    pub key_offset: usize,
    pub key_len: usize,
    pub value_offset: usize,
    pub value_len: usize,
}

/// A parsed transaction.
#[derive(Debug)]
pub struct Transaction {
    pub txid: u64,
    pub records: Vec<Record>,
    pub end: usize,
}

/// A parsed transaction by the values it holds.
#[verifier::ext_equal]
pub struct TransactionView {
    pub txid: u64,
    pub records: Seq<Record>,
    pub end: int,
}

impl View for Transaction {
    type V = TransactionView;

    open spec fn view(&self) -> TransactionView {
        TransactionView { txid: self.txid, records: self.records@, end: self.end as int }
    }
}

/// `INSPACE` and a zero byte.
pub open spec fn file_magic() -> Seq<u8> {
    seq![0x49u8, 0x4e, 0x53, 0x50, 0x41, 0x43, 0x45, 0x00]
}

/// `INSTXN01`.
pub open spec fn tx_magic() -> Seq<u8> {
    seq![0x49u8, 0x4e, 0x53, 0x54, 0x58, 0x4e, 0x30, 0x31]
}

/// `INSEND01`.
pub open spec fn end_magic() -> Seq<u8> {
    seq![0x49u8, 0x4e, 0x53, 0x45, 0x4e, 0x44, 0x30, 0x31]
}

fn file_magic_bytes() -> (r: [u8; 8])
    ensures
        r@ == file_magic(),
{
    let r: [u8; 8] = [0x49u8, 0x4e, 0x53, 0x50, 0x41, 0x43, 0x45, 0x00];
    assert(r@ =~= file_magic());
    r
}

fn tx_magic_bytes() -> (r: [u8; 8])
    ensures
        r@ == tx_magic(),
{
    let r: [u8; 8] = [0x49u8, 0x4e, 0x53, 0x54, 0x58, 0x4e, 0x30, 0x31];
    assert(r@ =~= tx_magic());
    r
}

fn end_magic_bytes() -> (r: [u8; 8])
    ensures
        r@ == end_magic(),
{
    let r: [u8; 8] = [0x49u8, 0x4e, 0x53, 0x45, 0x4e, 0x44, 0x30, 0x31];
    assert(r@ =~= end_magic());
    r
}

/// The header every journal file begins with.
pub open spec fn file_header_bytes() -> Seq<u8> {
    file_magic() + bytes::le_of(VERSION as nat, 4) + bytes::le_of(FILE_HEADER_LEN as nat, 4)
        + bytes::zeros(48)
}

/// Makes the header of a new journal file.
pub fn file_header() -> (r: Vec<u8>)
    ensures
        r@ == file_header_bytes(),
        r@.len() == FILE_HEADER_LEN,
{
    let mut header: Vec<u8> = Vec::new();
    append(&mut header, &file_magic_bytes());
    push_u32_le(&mut header, VERSION);
    push_u32_le(&mut header, FILE_HEADER_LEN as u32);
    proof {
        bytes::lemma_le_of_len(VERSION as nat, 4);
        bytes::lemma_le_of_len(FILE_HEADER_LEN as nat, 4);
    }
    let ghost head = header@;
    while header.len() < 64
        invariant
            16 <= header@.len() <= 64,
            head.len() == 16,
            header@ == head + bytes::zeros((header@.len() - 16) as nat),
        decreases 64 - header@.len(),
    {
        let ghost was = header@;
        header.push(0);
        assert(header@ =~= head + bytes::zeros((header@.len() - 16) as nat));
    }
    assert(header@ =~= file_header_bytes());
    header
}

/// What validating a file header says of a file.
pub open spec fn file_header_check(s: Seq<u8>) -> Result<(), Error> {
    if s.len() < FILE_HEADER_LEN {
        Err(Error::Corrupt("file header is truncated"))
    } else if s.subrange(0, 8) != file_magic() {
        Err(Error::Corrupt("invalid file magic"))
    } else if bytes::le_at(s, 8, 4) != VERSION {
        Err(Error::Corrupt("unsupported format version"))
    } else if bytes::le_at(s, 12, 4) != FILE_HEADER_LEN {
        Err(Error::Corrupt("invalid file header length"))
    } else {
        Ok(())
    }
}

/// Checks that a file begins with a valid header.
pub fn validate_file_header(bytes: &[u8]) -> (r: Result<(), Error>)
    ensures
        r == file_header_check(bytes@),
{
    if bytes.len() < FILE_HEADER_LEN {
        return Err(Error::Corrupt("file header is truncated"));
    }
    if !same(slice_subrange(bytes, 0, 8), &file_magic_bytes()) {
        return Err(Error::Corrupt("invalid file magic"));
    }
    if u32_le_at(bytes, 8) != VERSION {
        return Err(Error::Corrupt("unsupported format version"));
    }
    if u32_le_at(bytes, 12) != FILE_HEADER_LEN as u32 {
        return Err(Error::Corrupt("invalid file header length"));
    }
    Ok(())
}

/// A list of operations by the values they hold.
pub open spec fn views_of(ops: Seq<Operation>) -> Seq<OperationView> {
    ops.map_values(|op: Operation| (op.0, op.1@, op.2@, op.3@))
}

/// Whether the lengths of an operation's parts fit their fields.
pub open spec fn op_fits(op: OperationView) -> bool {
    op.1.len() <= u32::MAX && op.2.len() <= u32::MAX && op.3.len() <= u32::MAX
}

/// An operation as it is written.
pub open spec fn record_bytes(op: OperationView) -> Seq<u8> {
    seq![op.0, 0, 0, 0] + bytes::le_of(op.1.len(), 4) + bytes::le_of(op.2.len(), 4)
        + bytes::le_of(op.3.len(), 4) + op.1 + op.2 + op.3
}

/// Operations as they are written, back to back.
pub open spec fn payload_of(ops: Seq<OperationView>) -> Seq<u8>
    decreases ops.len(),
{
    if ops.len() == 0 {
        Seq::empty()
    } else {
        payload_of(ops.drop_last()) + record_bytes(ops.last())
    }
}

/// The header of a transaction with `count` records.
pub open spec fn tx_header(txid: u64, count: nat, payload: Seq<u8>) -> Seq<u8> {
    tx_magic() + bytes::le_of(TX_HEADER_LEN as nat, 4) + bytes::le_of(count, 4) + bytes::le_of(
        txid as nat,
        8,
    ) + bytes::le_of(payload.len(), 8) + bytes::le_of(hash::fnv1a(payload) as nat, 8)
}

/// The footer of a transaction.
pub open spec fn tx_footer(txid: u64, payload: Seq<u8>) -> Seq<u8> {
    end_magic() + bytes::le_of(txid as nat, 8) + bytes::le_of(hash::fnv1a(payload) as nat, 8)
}

/// A transaction as it is written.
pub open spec fn transaction_bytes(txid: u64, ops: Seq<OperationView>) -> Seq<u8> {
    let payload = payload_of(ops);
    tx_header(txid, ops.len(), payload) + payload + tx_footer(txid, payload)
}

/// Whether a list of operations fits the format.
pub open spec fn ops_fit(ops: Seq<OperationView>) -> bool {
    &&& ops.len() <= u32::MAX
    &&& forall|i: int| 0 <= i < ops.len() ==> op_fits(#[trigger] ops[i])
}

/// Frames operations as one transaction.
pub fn encode_transaction(txid: u64, operations: &[Operation]) -> (r: Result<Vec<u8>, Error>)
    ensures
        match r {
            Ok(out) => ops_fit(views_of(operations@)) && out@ == transaction_bytes(
                txid,
                views_of(operations@),
            ),
            Err(e) => e == Error::TooLarge && !ops_fit(views_of(operations@)),
        },
{
    let ghost views = views_of(operations@);
    let mut payload: Vec<u8> = Vec::new();
    let mut i: usize = 0;
    while i < operations.len()
        invariant
            i <= operations@.len(),
            views == views_of(operations@),
            payload@ == payload_of(views.take(i as int)),
            forall|j: int| 0 <= j < i ==> op_fits(#[trigger] views[j]),
        decreases operations@.len() - i,
    {
        let op: &Operation = &operations[i];
        let ghost view = views[i as int];
        if op.1.len() as u64 > u32::MAX as u64 || op.2.len() as u64 > u32::MAX as u64
            || op.3.len() as u64 > u32::MAX as u64 {
            assert(!op_fits(view));
            return Err(Error::TooLarge);
        }
        let ghost before = payload@;
        payload.push(op.0);
        payload.push(0);
        payload.push(0);
        payload.push(0);
        push_u32_le(&mut payload, op.1.len() as u32);
        push_u32_le(&mut payload, op.2.len() as u32);
        push_u32_le(&mut payload, op.3.len() as u32);
        append(&mut payload, &op.1);
        append(&mut payload, &op.2);
        append(&mut payload, &op.3);
        proof {
            assert(payload@ =~= before + record_bytes(view));
            assert(views.take(i + 1).drop_last() =~= views.take(i as int));
            assert(views.take(i + 1).last() == view);
        }
        i = i + 1;
    }
    assert(views.take(i as int) =~= views);
    if operations.len() as u64 > u32::MAX as u64 {
        return Err(Error::TooLarge);
    }
    let sum: u64 = hash(&payload);
    let mut out: Vec<u8> = Vec::new();
    append(&mut out, &tx_magic_bytes());
    push_u32_le(&mut out, TX_HEADER_LEN as u32);
    push_u32_le(&mut out, operations.len() as u32);
    push_u64_le(&mut out, txid);
    push_u64_le(&mut out, payload.len() as u64);
    push_u64_le(&mut out, sum);
    assert(out@ =~= tx_header(txid, views.len(), payload@));
    append(&mut out, &payload);
    append(&mut out, &end_magic_bytes());
    push_u64_le(&mut out, txid);
    push_u64_le(&mut out, sum);
    assert(out@ =~= transaction_bytes(txid, views));
    Ok(out)
}

/// Whether a record may have this kind.
pub open spec fn known_kind(kind: u8) -> bool {
    kind == CREATE_BUCKET || kind == DELETE_BUCKET || kind == PUT || kind == DELETE
}

/// The record at `cursor`, in a payload that ends at `end`.
pub open spec fn record_at(s: Seq<u8>, cursor: int, end: int) -> Result<Record, Error> {
    let bucket_len = bytes::le_at(s, cursor + 4, 4);
    let key_len = bytes::le_at(s, cursor + 8, 4);
    let value_len = bytes::le_at(s, cursor + 12, 4);
    let bucket_offset = cursor + RECORD_HEADER_LEN;
    let key_offset = bucket_offset + bucket_len;
    let value_offset = key_offset + key_len;
    if bucket_offset > end {
        Err(Error::Corrupt("record header exceeds transaction"))
    } else if !known_kind(s[cursor]) {
        Err(Error::Corrupt("unknown record kind"))
    } else if value_offset + value_len > usize::MAX {
        Err(Error::Corrupt("record length overflow"))
    } else if value_offset + value_len > end {
        Err(Error::Corrupt("record exceeds transaction"))
    } else {
        Ok(
            Record {
                kind: s[cursor],
                bucket_offset: bucket_offset as usize,
                bucket_len: bucket_len as usize,
                key_offset: key_offset as usize,
                key_len: key_len as usize,
                value_offset: value_offset as usize,
                value_len: value_len as usize,
            },
        )
    }
}

/// The `n` records at `cursor`, which must fill the payload up to `end`.
pub open spec fn records_at(s: Seq<u8>, cursor: int, n: nat, end: int) -> Result<
    Seq<Record>,
    Error,
>
    decreases n,
{
    if n == 0 {
        if cursor != end {
            Err(Error::Corrupt("transaction has unclaimed payload bytes"))
        } else {
            Ok(Seq::empty())
        }
    } else {
        match record_at(s, cursor, end) {
            Err(e) => Err(e),
            Ok(first) => match records_at(
                s,
                first.value_offset + first.value_len,
                (n - 1) as nat,
                end,
            ) {
                Err(e) => Err(e),
                Ok(rest) => Ok(seq![first] + rest),
            },
        }
    }
}

/// What stands at `start` of a journal: a transaction, an incomplete one at
/// the end of the file (`None`), or corrupt data.
pub open spec fn transaction_at(s: Seq<u8>, start: int) -> Result<Option<TransactionView>, Error> {
    let header_end = start + TX_HEADER_LEN;
    let count = bytes::le_at(s, start + 12, 4);
    let txid = bytes::le_at(s, start + 16, 8);
    let payload_len = bytes::le_at(s, start + 24, 8);
    let sum = bytes::le_at(s, start + 32, 8);
    let payload_end = header_end + payload_len;
    let end = payload_end + TX_FOOTER_LEN;
    if header_end > usize::MAX {
        Err(Error::Corrupt("transaction offset overflow"))
    } else if header_end > s.len() {
        Ok(None)
    } else if s.subrange(start, start + 8) != tx_magic() {
        Err(Error::Corrupt("invalid transaction magic"))
    } else if bytes::le_at(s, start + 8, 4) != TX_HEADER_LEN {
        Err(Error::Corrupt("invalid transaction header length"))
    } else if payload_len > usize::MAX {
        Err(Error::Corrupt("transaction is too large"))
    } else if end > usize::MAX {
        Err(Error::Corrupt("transaction length overflow"))
    } else if end > s.len() {
        Ok(None)
    } else if hash::fnv1a(s.subrange(header_end, payload_end)) != sum {
        Err(Error::Corrupt("transaction checksum mismatch"))
    } else if s.subrange(payload_end, payload_end + 8) != end_magic() || bytes::le_at(
        s,
        payload_end + 8,
        8,
    ) != txid || bytes::le_at(s, payload_end + 16, 8) != sum {
        Err(Error::Corrupt("invalid transaction footer"))
    } else {
        match records_at(s, header_end, count, payload_end) {
            Err(e) => Err(e),
            Ok(records) => Ok(Some(TransactionView { txid: txid as u64, records, end })),
        }
    }
}

/// A result of parsing by the values it holds.
pub open spec fn parsed_view(r: Result<Option<Transaction>, Error>) -> Result<
    Option<TransactionView>,
    Error,
> {
    match r {
        Err(e) => Err(e),
        Ok(None) => Ok(None),
        Ok(Some(tx)) => Ok(Some(tx@)),
    }
}

/// `acc` before what `rest` holds.
pub open spec fn after_records(acc: Seq<Record>, rest: Result<Seq<Record>, Error>) -> Result<
    Seq<Record>,
    Error,
> {
    match rest {
        Err(e) => Err(e),
        Ok(tail) => Ok(acc + tail),
    }
}

/// Reads the record at `cursor`.
fn parse_record(bytes: &[u8], cursor: usize, end: usize) -> (r: Result<Record, Error>)
    requires
        cursor <= end,
        end + TX_FOOTER_LEN <= bytes@.len(),
    ensures
        r == record_at(bytes@, cursor as int, end as int),
        r is Ok ==> cursor + RECORD_HEADER_LEN <= r->Ok_0.value_offset + r->Ok_0.value_len <= end,
{
    let len: usize = bytes.len();
    let bucket_offset: usize = cursor + RECORD_HEADER_LEN;
    if bucket_offset > end {
        return Err(Error::Corrupt("record header exceeds transaction"));
    }
    let kind: u8 = bytes[cursor];
    if !(kind == CREATE_BUCKET || kind == DELETE_BUCKET || kind == PUT || kind == DELETE) {
        return Err(Error::Corrupt("unknown record kind"));
    }
    let bucket_len: usize = u32_le_at(bytes, cursor + 4) as usize;
    let key_len: usize = u32_le_at(bytes, cursor + 8) as usize;
    let value_len: usize = u32_le_at(bytes, cursor + 12) as usize;
    let key_offset: usize = match bucket_offset.checked_add(bucket_len) {
        Some(n) => n,
        None => return Err(Error::Corrupt("record length overflow")),
    };
    let value_offset: usize = match key_offset.checked_add(key_len) {
        Some(n) => n,
        None => return Err(Error::Corrupt("record length overflow")),
    };
    match value_offset.checked_add(value_len) {
        Some(n) => {
            if n > end {
                return Err(Error::Corrupt("record exceeds transaction"));
            }
        },
        None => return Err(Error::Corrupt("record length overflow")),
    }
    Ok(
        Record {
            kind,
            bucket_offset,
            bucket_len,
            key_offset,
            key_len,
            value_offset,
            value_len,
        },
    )
}

/// Parses the transaction at `start`.
///
/// Returns `Ok(None)` only for an incomplete transaction at the end of a file.
pub fn parse_transaction(bytes: &[u8], start: usize) -> (r: Result<Option<Transaction>, Error>)
    ensures
        parsed_view(r) == transaction_at(bytes@, start as int),
{
    let header_end: usize = match start.checked_add(TX_HEADER_LEN) {
        Some(n) => n,
        None => return Err(Error::Corrupt("transaction offset overflow")),
    };
    if header_end > bytes.len() {
        return Ok(None);
    }
    if !same(slice_subrange(bytes, start, start + 8), &tx_magic_bytes()) {
        return Err(Error::Corrupt("invalid transaction magic"));
    }
    if u32_le_at(bytes, start + 8) != TX_HEADER_LEN as u32 {
        return Err(Error::Corrupt("invalid transaction header length"));
    }
    let record_count: u32 = u32_le_at(bytes, start + 12);
    let txid: u64 = u64_le_at(bytes, start + 16);
    let declared: u64 = u64_le_at(bytes, start + 24);
    if declared > usize::MAX as u64 {
        return Err(Error::Corrupt("transaction is too large"));
    }
    let payload_len: usize = declared as usize;
    let expected: u64 = u64_le_at(bytes, start + 32);
    let payload_end: usize = match header_end.checked_add(payload_len) {
        Some(n) => n,
        None => return Err(Error::Corrupt("transaction length overflow")),
    };
    let end: usize = match payload_end.checked_add(TX_FOOTER_LEN) {
        Some(n) => n,
        None => return Err(Error::Corrupt("transaction length overflow")),
    };
    if end > bytes.len() {
        return Ok(None);
    }
    if hash(slice_subrange(bytes, header_end, payload_end)) != expected {
        return Err(Error::Corrupt("transaction checksum mismatch"));
    }
    if !same(slice_subrange(bytes, payload_end, payload_end + 8), &end_magic_bytes()) || u64_le_at(
        bytes,
        payload_end + 8,
    ) != txid || u64_le_at(bytes, payload_end + 16) != expected {
        return Err(Error::Corrupt("invalid transaction footer"));
    }
    let mut cursor: usize = header_end;
    let mut records: Vec<Record> = Vec::new();
    let mut i: u32 = 0;
    let ghost all = records_at(bytes@, header_end as int, record_count as nat, payload_end as int);
    proof {
        if let Ok(tail) = all {
            assert(records@ + tail =~= tail);
        }
    }
    while i < record_count
        invariant
            i <= record_count,
            cursor <= payload_end,
            payload_end + TX_FOOTER_LEN <= bytes@.len(),
            all == after_records(
                records@,
                records_at(bytes@, cursor as int, (record_count - i) as nat, payload_end as int),
            ),
            transaction_at(bytes@, start as int) == (match all {
                Err(e) => Err(e),
                Ok(records) => Ok(Some(TransactionView { txid, records, end: end as int })),
            }),
        decreases record_count - i,
    {
        let record: Record = match parse_record(bytes, cursor, payload_end) {
            Ok(record) => record,
            Err(e) => return Err(e),
        };
        let ghost acc = records@;
        cursor = record.value_offset + record.value_len;
        records.push(record);
        i = i + 1;
        proof {
            if let Ok(tail) = records_at(
                bytes@,
                cursor as int,
                (record_count - i) as nat,
                payload_end as int,
            ) {
                assert(acc + (seq![record] + tail) =~= records@ + tail);
            }
        }
    }
    if cursor != payload_end {
        return Err(Error::Corrupt("transaction has unclaimed payload bytes"));
    }
    assert(records@ + Seq::<Record>::empty() =~= records@);
    Ok(Some(Transaction { txid, records, end }))
}

/// Whether a record's parts, read out of the file, are those of an operation.
pub open spec fn record_holds(s: Seq<u8>, r: Record, op: OperationView) -> bool {
    &&& r.kind == op.0
    &&& s.subrange(r.bucket_offset as int, r.bucket_offset + r.bucket_len) == op.1
    &&& s.subrange(r.key_offset as int, r.key_offset + r.key_len) == op.2
    &&& s.subrange(r.value_offset as int, r.value_offset + r.value_len) == op.3
}

proof fn lemma_payload_prefix(ops: Seq<OperationView>, i: int)
    requires
        0 <= i < ops.len(),
    ensures
        payload_of(ops.take(i + 1)) == payload_of(ops.take(i)) + record_bytes(ops[i]),
        payload_of(ops.take(i + 1)).is_prefix_of(payload_of(ops)),
    decreases ops.len() - i,
{
    assert(ops.take(i + 1).drop_last() =~= ops.take(i));
    if i + 1 == ops.len() {
        assert(ops.take(i + 1) =~= ops);
    } else {
        lemma_payload_prefix(ops, i + 1);
    }
}

/// A record that was written at `at` parses to itself.
#[verifier::rlimit(30)]
#[verifier::spinoff_prover]
proof fn lemma_record_parses(s: Seq<u8>, at: int, end: int, op: OperationView)
    requires
        0 <= at,
        at + record_bytes(op).len() <= end <= s.len() <= usize::MAX,
        s.subrange(at, at + record_bytes(op).len()) == record_bytes(op),
        op_fits(op),
        known_kind(op.0),
    ensures
        record_bytes(op).len() == 16 + op.1.len() + op.2.len() + op.3.len(),
        record_at(s, at, end) is Ok,
        record_holds(s, record_at(s, at, end)->Ok_0, op),
        record_at(s, at, end)->Ok_0.value_offset + record_at(s, at, end)->Ok_0.value_len == at
            + record_bytes(op).len(),
{
    let w = record_bytes(op);
    bytes::lemma_le_of_len(op.1.len(), 4);
    bytes::lemma_le_of_len(op.2.len(), 4);
    bytes::lemma_le_of_len(op.3.len(), 4);
    bytes::lemma_pow256_widths();
    assert(w.len() == 16 + op.1.len() + op.2.len() + op.3.len());
    assert forall|i: int| 0 <= i < w.len() implies s[at + i] == w[i] by {
        assert(s[at + i] == s.subrange(at, at + w.len())[i]);
    }
    assert(s[at] == w[0]);
    assert(s.subrange(at + 4, at + 8) =~= bytes::le_of(op.1.len(), 4)) by {
        assert(w.subrange(4, 8) =~= bytes::le_of(op.1.len(), 4));
        assert(s.subrange(at + 4, at + 8) =~= w.subrange(4, 8));
    }
    bytes::lemma_le_field(s, at + 4, op.1.len(), 4);
    assert(s.subrange(at + 8, at + 12) =~= bytes::le_of(op.2.len(), 4)) by {
        assert(w.subrange(8, 12) =~= bytes::le_of(op.2.len(), 4));
        assert(s.subrange(at + 8, at + 12) =~= w.subrange(8, 12));
    }
    bytes::lemma_le_field(s, at + 8, op.2.len(), 4);
    assert(s.subrange(at + 12, at + 16) =~= bytes::le_of(op.3.len(), 4)) by {
        assert(w.subrange(12, 16) =~= bytes::le_of(op.3.len(), 4));
        assert(s.subrange(at + 12, at + 16) =~= w.subrange(12, 16));
    }
    bytes::lemma_le_field(s, at + 12, op.3.len(), 4);
    let b: int = 16 + op.1.len() as int;
    let k: int = b + op.2.len();
    let v: int = k + op.3.len();
    assert(w.subrange(16, b) =~= op.1);
    assert(w.subrange(b, k) =~= op.2);
    assert(w.subrange(k, v) =~= op.3);
    assert(s.subrange(at + 16, at + b) =~= w.subrange(16, b));
    assert(s.subrange(at + b, at + k) =~= w.subrange(b, k));
    assert(s.subrange(at + k, at + v) =~= w.subrange(k, v));
}

#[verifier::rlimit(30)]
#[verifier::spinoff_prover]
proof fn lemma_records_parse(s: Seq<u8>, base: int, ops: Seq<OperationView>, i: int)
    requires
        0 <= i <= ops.len(),
        0 <= base,
        base + payload_of(ops).len() <= s.len() <= usize::MAX,
        s.subrange(base, base + payload_of(ops).len()) == payload_of(ops),
        forall|j: int| 0 <= j < ops.len() ==> op_fits(#[trigger] ops[j]) && known_kind(ops[j].0),
    ensures
        ({
            let cursor = base + payload_of(ops.take(i)).len();
            let r = records_at(
                s,
                cursor,
                (ops.len() - i) as nat,
                base + payload_of(ops).len(),
            );
            &&& r is Ok
            &&& r->Ok_0.len() == ops.len() - i
            &&& forall|j: int|
                0 <= j < r->Ok_0.len() ==> record_holds(s, #[trigger] r->Ok_0[j], ops[i + j])
        }),
    decreases ops.len() - i,
{
    let end = base + payload_of(ops).len();
    let cursor = base + payload_of(ops.take(i)).len();
    if i == ops.len() {
        assert(ops.take(i) =~= ops);
    } else {
        lemma_payload_prefix(ops, i);
        let op = ops[i];
        let w = record_bytes(op);
        let whole = payload_of(ops);
        let off = payload_of(ops.take(i)).len();
        let upto = payload_of(ops.take(i + 1));
        assert(upto.len() <= whole.len());
        assert(s.subrange(cursor, cursor + w.len()) =~= w) by {
            assert forall|k: int| 0 <= k < w.len() implies s[cursor + k] == w[k] by {
                assert(upto[off + k] == w[k]);
                assert(whole[off + k] == upto[off + k]);
                assert(s.subrange(base, base + whole.len())[off + k] == s[cursor + k]);
            }
        }
        lemma_record_parses(s, cursor, end, op);
        lemma_records_parse(s, base, ops, i + 1);
        let first = record_at(s, cursor, end)->Ok_0;
        let rest = records_at(s, cursor + w.len(), (ops.len() - i - 1) as nat, end)->Ok_0;
        assert(base + upto.len() == cursor + w.len());
        let all = seq![first] + rest;
        assert forall|j: int| 0 <= j < all.len() implies record_holds(
            s,
            #[trigger] all[j],
            ops[i + j],
        ) by {
            if j > 0 {
                assert(all[j] == rest[j - 1]);
            }
        }
    }
}

/// What the header of a transaction at `start` reads as.
proof fn lemma_header_reads(s: Seq<u8>, start: int, txid: u64, count: nat, payload: Seq<u8>)
    requires
        0 <= start,
        start + TX_HEADER_LEN <= s.len(),
        s.subrange(start, start + TX_HEADER_LEN) == tx_header(txid, count, payload),
        count <= u32::MAX,
        payload.len() <= u64::MAX,
    ensures
        s.subrange(start, start + 8) == tx_magic(),
        bytes::le_at(s, start + 8, 4) == TX_HEADER_LEN,
        bytes::le_at(s, start + 12, 4) == count,
        bytes::le_at(s, start + 16, 8) == txid,
        bytes::le_at(s, start + 24, 8) == payload.len(),
        bytes::le_at(s, start + 32, 8) == hash::fnv1a(payload),
{
    let w = tx_header(txid, count, payload);
    let sum = hash::fnv1a(payload);
    bytes::lemma_le_of_len(TX_HEADER_LEN as nat, 4);
    bytes::lemma_le_of_len(count, 4);
    bytes::lemma_le_of_len(txid as nat, 8);
    bytes::lemma_le_of_len(payload.len(), 8);
    bytes::lemma_le_of_len(sum as nat, 8);
    bytes::lemma_pow256_widths();
    assert forall|i: int, j: int| 0 <= i <= j <= 40 implies #[trigger] s.subrange(
        start + i,
        start + j,
    ) == w.subrange(i, j) by {
        assert(s.subrange(start, start + TX_HEADER_LEN).subrange(i, j) =~= s.subrange(
            start + i,
            start + j,
        ));
    }
    assert(s.subrange(start + 0, start + 8) == w.subrange(0, 8));
    assert(w.subrange(0, 8) =~= tx_magic());
    assert(w.subrange(8, 12) =~= bytes::le_of(TX_HEADER_LEN as nat, 4));
    assert(w.subrange(12, 16) =~= bytes::le_of(count, 4));
    assert(w.subrange(16, 24) =~= bytes::le_of(txid as nat, 8));
    assert(w.subrange(24, 32) =~= bytes::le_of(payload.len(), 8));
    assert(w.subrange(32, 40) =~= bytes::le_of(sum as nat, 8));
    assert(s.subrange(start + 8, start + 12) == w.subrange(8, 12));
    assert(s.subrange(start + 12, start + 16) == w.subrange(12, 16));
    assert(s.subrange(start + 16, start + 24) == w.subrange(16, 24));
    assert(s.subrange(start + 24, start + 32) == w.subrange(24, 32));
    assert(s.subrange(start + 32, start + 40) == w.subrange(32, 40));
    bytes::lemma_le_field(s, start + 8, TX_HEADER_LEN as nat, 4);
    bytes::lemma_le_field(s, start + 12, count, 4);
    bytes::lemma_le_field(s, start + 16, txid as nat, 8);
    bytes::lemma_le_field(s, start + 24, payload.len(), 8);
    bytes::lemma_le_field(s, start + 32, sum as nat, 8);
}

proof fn lemma_transaction_len(txid: u64, ops: Seq<OperationView>)
    ensures
        tx_header(txid, ops.len(), payload_of(ops)).len() == TX_HEADER_LEN,
        tx_footer(txid, payload_of(ops)).len() == TX_FOOTER_LEN,
        transaction_bytes(txid, ops).len() == TX_HEADER_LEN + payload_of(ops).len()
            + TX_FOOTER_LEN,
{
    let sum = hash::fnv1a(payload_of(ops));
    bytes::lemma_le_of_len(TX_HEADER_LEN as nat, 4);
    bytes::lemma_le_of_len(ops.len(), 4);
    bytes::lemma_le_of_len(txid as nat, 8);
    bytes::lemma_le_of_len(payload_of(ops).len(), 8);
    bytes::lemma_le_of_len(sum as nat, 8);
}

/// A transaction that was written anywhere in a file parses back: the same
/// number, the same operations in the same order, and an end just behind it.
#[verifier::rlimit(40)]
#[verifier::spinoff_prover]
pub proof fn law_parse_reads_what_encode_wrote(
    before: Seq<u8>,
    txid: u64,
    ops: Seq<OperationView>,
    after: Seq<u8>,
)
    requires
        ops_fit(ops),
        forall|i: int| 0 <= i < ops.len() ==> known_kind((#[trigger] ops[i]).0),
        (before + transaction_bytes(txid, ops) + after).len() <= usize::MAX,
    ensures
        ({
            let s = before + transaction_bytes(txid, ops) + after;
            let r = transaction_at(s, before.len() as int);
            &&& r is Ok && r->Ok_0 is Some
            &&& r->Ok_0->0.txid == txid
            &&& r->Ok_0->0.end == before.len() + transaction_bytes(txid, ops).len()
            &&& r->Ok_0->0.records.len() == ops.len()
            &&& forall|i: int|
                0 <= i < ops.len() ==> record_holds(s, #[trigger] r->Ok_0->0.records[i], ops[i])
        }),
{
    let payload = payload_of(ops);
    let sum = hash::fnv1a(payload);
    let head = tx_header(txid, ops.len(), payload);
    let foot = tx_footer(txid, payload);
    let w = transaction_bytes(txid, ops);
    let s = before + w + after;
    let start: int = before.len() as int;
    lemma_transaction_len(txid, ops);
    assert(s.subrange(start, start + 40) =~= head);
    lemma_header_reads(s, start, txid, ops.len(), payload);
    let base = start + 40;
    let end = base + payload.len();
    assert(s.subrange(base, end) =~= payload);
    assert(s.subrange(end, end + 24) =~= foot);
    bytes::lemma_le_of_len(txid as nat, 8);
    bytes::lemma_le_of_len(sum as nat, 8);
    bytes::lemma_pow256_widths();
    assert(foot.subrange(0, 8) =~= end_magic());
    assert(foot.subrange(8, 16) =~= bytes::le_of(txid as nat, 8));
    assert(foot.subrange(16, 24) =~= bytes::le_of(sum as nat, 8));
    assert(s.subrange(end, end + 8) =~= foot.subrange(0, 8));
    assert(s.subrange(end + 8, end + 16) =~= foot.subrange(8, 16));
    assert(s.subrange(end + 16, end + 24) =~= foot.subrange(16, 24));
    bytes::lemma_le_field(s, end + 8, txid as nat, 8);
    bytes::lemma_le_field(s, end + 16, sum as nat, 8);
    lemma_records_parse(s, base, ops, 0);
    assert(ops.take(0) =~= Seq::<OperationView>::empty());
    assert(payload_of(ops.take(0)).len() == 0);
    let records = records_at(s, base, ops.len(), end)->Ok_0;
    assert forall|i: int| 0 <= i < ops.len() implies record_holds(
        s,
        #[trigger] records[i],
        ops[i],
    ) by {
        assert(record_holds(s, records[i], ops[0 + i]));
    }
}

/// A transaction of which only a part reached the end of the file is taken
/// for incomplete, not for corrupt, wherever the write was cut.
pub proof fn law_torn_transaction_is_incomplete(
    before: Seq<u8>,
    txid: u64,
    ops: Seq<OperationView>,
    kept: int,
)
    requires
        ops_fit(ops),
        0 <= kept < transaction_bytes(txid, ops).len(),
        before.len() + transaction_bytes(txid, ops).len() <= usize::MAX,
    ensures
        transaction_at(
            before + transaction_bytes(txid, ops).take(kept),
            before.len() as int,
        ) == Ok::<Option<TransactionView>, Error>(None),
{
    let payload = payload_of(ops);
    let w = transaction_bytes(txid, ops);
    let s = before + w.take(kept);
    let start: int = before.len() as int;
    lemma_transaction_len(txid, ops);
    if kept >= 40 {
        assert(s.subrange(start, start + 40) =~= tx_header(txid, ops.len(), payload));
        lemma_header_reads(s, start, txid, ops.len(), payload);
    }
}

} // verus!
