//! The durable journal of what transactions changed.

use crate::api::changes::{
    self, select, Change, ChangeOperation, ChangeSet, ChangeSetView, ChangeView, WatchFilter,
};
use crate::api::cursor;
use crate::api::names::{self, config_key, journal_bucket};
use crate::api::tree::{self, Leaf, Node, Tree};
use crate::bytes::{
    self, append, owned, push_u16_be, push_u32_be, push_u64_be, same, u16_be_at, u32_be_at,
    u64_be_at,
};
use crate::data::DataView;
use crate::error::{Error, Fault};
use vstd::prelude::*;
use vstd::slice::slice_subrange;

verus! {

/// What keys of transactions begin with.
pub const TX_PREFIX: u8 = 116;

/// What keys of checkpoints begin with.
pub const CHECKPOINT_PREFIX: u8 = 99;

/// How much history the journal keeps.
#[derive(Clone, Copy, Debug, PartialEq, Eq, Structural)]
pub struct JournalConfig {
    /// Maximum complete transactions retained. Checkpoints do not pin history.
    pub max_transactions: u64,
}

impl JournalConfig {
    /// The history kept unless told otherwise.
    pub fn new() -> (r: Self)
        ensures
            r.max_transactions == 10_000,
    {
        JournalConfig { max_transactions: 10_000 }
    }
}

impl Default for JournalConfig {
    fn default() -> (r: Self)
        ensures
            r.max_transactions == 10_000,
    {
        JournalConfig::new()
    }
}

/// A stretch of history that is no longer there.
#[derive(Clone, Copy, Debug, PartialEq, Eq, Structural)]
pub struct JournalGap {
    pub requested_after: u64,
    pub oldest_available: u64,
}

/// Transactions from the journal.
#[derive(Clone, Debug, PartialEq, Eq)]
pub struct JournalReplay {
    pub transactions: Vec<ChangeSet>,
    pub gap: Option<JournalGap>,
    pub oldest_available: Option<u64>,
    pub newest_available: Option<u64>,
}

impl Default for JournalReplay {
    fn default() -> (r: Self)
        ensures
            r.transactions@.len() == 0,
            r.gap is None,
            r.oldest_available is None,
            r.newest_available is None,
    {
        JournalReplay {
            transactions: Vec::new(),
            gap: None,
            oldest_available: None,
            newest_available: None,
        }
    }
}

/// An error about the journal.
pub open spec fn invalid(text: &'static str) -> Error {
    Error::InvalidDB(Fault::Text(text))
}

/// The first bytes of a journal record, "ISJR".
pub open spec fn magic() -> Seq<u8> {
    seq![73u8, 83, 74, 82]
}

/// The key of a transaction.
pub open spec fn tx_key_of(id: u64) -> Seq<u8> {
    seq![TX_PREFIX] + bytes::be_of(id as nat, 8)
}

/// The transaction whose key it is.
pub open spec fn tx_of(key: Seq<u8>) -> Option<u64> {
    if key.len() == 9 && key[0] == TX_PREFIX {
        Some(bytes::be_nat(key.skip(1)) as u64)
    } else {
        None
    }
}

/// The key of a transaction.
pub fn tx_key(id: u64) -> (r: Vec<u8>)
    ensures
        r@ == tx_key_of(id),
{
    let mut out: Vec<u8> = Vec::new();
    out.push(TX_PREFIX);
    push_u64_be(&mut out, id);
    assert(out@ =~= tx_key_of(id));
    out
}

/// The transaction whose key it is.
pub fn decode_tx_key(key: &[u8]) -> (r: Option<u64>)
    ensures
        r == tx_of(key@),
{
    if key.len() == 9 && key[0] == TX_PREFIX {
        assert(key@.subrange(1, 9) =~= key@.skip(1));
        Some(u64_be_at(key, 1))
    } else {
        None
    }
}

/// A transaction is read back from its key, and later transactions have larger
/// keys.
pub proof fn law_tx_keys_are_in_order(a: u64, b: u64)
    ensures
        tx_of(tx_key_of(a)) == Some(a),
        bytes::lex_lt(tx_key_of(a), tx_key_of(b)) <==> a < b,
{
    bytes::lemma_pow256_widths();
    bytes::lemma_be_round_trip(a as nat, 8);
    bytes::lemma_be_round_trip(b as nat, 8);
    let x = tx_key_of(a);
    let y = tx_key_of(b);
    assert(x.skip(1) =~= bytes::be_of(a as nat, 8));
    assert(x.drop_first() =~= bytes::be_of(a as nat, 8));
    assert(y.drop_first() =~= bytes::be_of(b as nat, 8));
    bytes::lemma_be_order(x.drop_first(), y.drop_first());
}

/// The key of a consumer's checkpoint: a prefix and the consumer's name. The
/// one name that would give the key of the configuration is left out behind
/// the prefix; no name is empty, so no other consumer has that key.
pub open spec fn checkpoint_key_of(consumer: Seq<u8>) -> Result<Seq<u8>, Error> {
    if consumer.len() == 0 || consumer.len() > 255 {
        Err(invalid("journal consumer name must contain 1..=255 bytes"))
    } else if seq![CHECKPOINT_PREFIX] + consumer == names::config_name() {
        Ok(seq![CHECKPOINT_PREFIX])
    } else {
        Ok(seq![CHECKPOINT_PREFIX] + consumer)
    }
}

/// The key of a consumer's checkpoint.
pub fn checkpoint_key(consumer: &[u8]) -> (r: Result<Vec<u8>, Error>)
    ensures
        match (r, checkpoint_key_of(consumer@)) {
            (Ok(key), Ok(want)) => key@ == want,
            (Err(e), Err(f)) => e == f,
            _ => false,
        },
{
    if consumer.len() == 0 || consumer.len() > 255 {
        return Err(
            Error::InvalidDB(Fault::Text("journal consumer name must contain 1..=255 bytes")),
        );
    }
    let mut out: Vec<u8> = Vec::new();
    out.push(CHECKPOINT_PREFIX);
    append(&mut out, consumer);
    assert(out@ =~= seq![CHECKPOINT_PREFIX] + consumer@);
    if same(&out, &config_key()) {
        let alone: Vec<u8> = vec![CHECKPOINT_PREFIX];
        assert(alone@ =~= seq![CHECKPOINT_PREFIX]);
        return Ok(alone);
    }
    Ok(out)
}

/// Consumers have keys of their own: none is another's, the configuration's or
/// a transaction's.
pub proof fn law_checkpoint_keys_are_apart(a: Seq<u8>, b: Seq<u8>)
    requires
        checkpoint_key_of(a) is Ok,
        checkpoint_key_of(b) is Ok,
    ensures
        checkpoint_key_of(a) == checkpoint_key_of(b) <==> a == b,
        checkpoint_key_of(a)->Ok_0 != names::config_name(),
        tx_of(checkpoint_key_of(a)->Ok_0) is None,
{
    let x = seq![CHECKPOINT_PREFIX] + a;
    let y = seq![CHECKPOINT_PREFIX] + b;
    assert(x.skip(1) =~= a);
    assert(y.skip(1) =~= b);
    assert(names::config_name().len() == 6);
}

/// The number that eight bytes are.
pub open spec fn number_of(s: Seq<u8>) -> Result<u64, Error> {
    if s.len() == 8 {
        Ok(bytes::be_nat(s) as u64)
    } else {
        Err(invalid("journal integer must contain eight bytes"))
    }
}

fn decode_u64(s: &[u8]) -> (r: Result<u64, Error>)
    ensures
        r == number_of(s@),
{
    if s.len() != 8 {
        return Err(Error::InvalidDB(Fault::Text("journal integer must contain eight bytes")));
    }
    assert(s@.subrange(0, 8) =~= s@);
    Ok(u64_be_at(s, 0))
}

fn encode_u64(n: u64) -> (r: Vec<u8>)
    ensures
        r@ == bytes::be_of(n as nat, 8),
{
    let mut out: Vec<u8> = Vec::new();
    push_u64_be(&mut out, n);
    assert(out@ =~= bytes::be_of(n as nat, 8));
    out
}

/// The byte that stands for an operation.
pub open spec fn code_of(operation: ChangeOperation) -> u8 {
    match operation {
        ChangeOperation::Put => 1,
        ChangeOperation::Delete => 2,
        ChangeOperation::BucketCreate => 3,
        ChangeOperation::BucketDelete => 4,
        ChangeOperation::Expire => 5,
    }
}

/// The operation that a byte stands for.
pub open spec fn operation_of(code: u8) -> Result<ChangeOperation, Error> {
    if code == 1 {
        Ok(ChangeOperation::Put)
    } else if code == 2 {
        Ok(ChangeOperation::Delete)
    } else if code == 3 {
        Ok(ChangeOperation::BucketCreate)
    } else if code == 4 {
        Ok(ChangeOperation::BucketDelete)
    } else if code == 5 {
        Ok(ChangeOperation::Expire)
    } else {
        Err(invalid("journal operation is invalid"))
    }
}

/// The byte that stands for an operation.
pub fn encode_operation(operation: ChangeOperation) -> (r: u8)
    ensures
        r == code_of(operation),
{
    match operation {
        ChangeOperation::Put => 1,
        ChangeOperation::Delete => 2,
        ChangeOperation::BucketCreate => 3,
        ChangeOperation::BucketDelete => 4,
        ChangeOperation::Expire => 5,
    }
}

/// The operation that a byte stands for.
pub fn decode_operation(code: u8) -> (r: Result<ChangeOperation, Error>)
    ensures
        r == operation_of(code),
{
    if code == 1 {
        Ok(ChangeOperation::Put)
    } else if code == 2 {
        Ok(ChangeOperation::Delete)
    } else if code == 3 {
        Ok(ChangeOperation::BucketCreate)
    } else if code == 4 {
        Ok(ChangeOperation::BucketDelete)
    } else if code == 5 {
        Ok(ChangeOperation::Expire)
    } else {
        Err(Error::InvalidDB(Fault::Text("journal operation is invalid")))
    }
}

/// A byte string with its length before it.
pub open spec fn sized(s: Seq<u8>) -> Seq<u8> {
    bytes::be_of(s.len(), 4) + s
}

/// Byte strings one after the other, each with its length before it.
pub open spec fn sized_all(parts: Seq<Seq<u8>>) -> Seq<u8>
    decreases parts.len(),
{
    if parts.len() == 0 {
        Seq::empty()
    } else {
        sized_all(parts.drop_last()) + sized(parts.last())
    }
}

/// A change as it is written.
pub open spec fn change_record(c: ChangeView) -> Seq<u8> {
    seq![code_of(c.operation)] + bytes::be_of(c.path.len(), 2) + sized_all(c.path) + sized(c.key)
}

/// Changes as they are written.
pub open spec fn change_records(changes: Seq<ChangeView>) -> Seq<u8>
    decreases changes.len(),
{
    if changes.len() == 0 {
        Seq::empty()
    } else {
        change_records(changes.drop_last()) + change_record(changes.last())
    }
}

/// A change set as it is written.
pub open spec fn set_record(set: ChangeSetView) -> Seq<u8> {
    magic() + seq![if set.truncated {
        1u8
    } else {
        0
    }] + bytes::be_of(set.changes.len(), 4) + change_records(set.changes)
}

/// Whether all byte strings can be written.
pub open spec fn all_sized(parts: Seq<Seq<u8>>) -> bool {
    forall|i: int| 0 <= i < parts.len() ==> (#[trigger] parts[i]).len() <= u32::MAX
}

/// Why a change cannot be written, if it cannot.
pub open spec fn misfit(c: ChangeView) -> Option<Error> {
    if c.path.len() > u16::MAX {
        Some(invalid("journal path is too deep"))
    } else if !all_sized(c.path) || c.key.len() > u32::MAX {
        Some(invalid("journal record is too large"))
    } else {
        None
    }
}

/// Why changes cannot be written, by the first that cannot.
pub open spec fn misfits(changes: Seq<ChangeView>) -> Option<Error>
    decreases changes.len(),
{
    if changes.len() == 0 {
        None
    } else {
        match misfits(changes.drop_last()) {
            Some(e) => Some(e),
            None => misfit(changes.last()),
        }
    }
}

/// Why a change set cannot be written, if it cannot.
pub open spec fn unwritable(set: ChangeSetView) -> Option<Error> {
    if set.changes.len() > u32::MAX {
        Some(invalid("journal record is too large"))
    } else {
        misfits(set.changes)
    }
}

fn push_bytes(out: &mut Vec<u8>, s: &[u8]) -> (r: Result<(), Error>)
    ensures
        match r {
            Ok(_) => s@.len() <= u32::MAX && final(out)@ == old(out)@ + sized(s@),
            Err(e) => s@.len() > u32::MAX && e == invalid("journal record is too large"),
        },
{
    let ghost was = out@;
    if s.len() as u64 > u32::MAX as u64 {
        return Err(Error::InvalidDB(Fault::Text("journal record is too large")));
    }
    push_u32_be(out, s.len() as u32);
    append(out, s);
    assert(out@ =~= was + sized(s@));
    Ok(())
}

fn push_change(out: &mut Vec<u8>, change: &Change) -> (r: Result<(), Error>)
    ensures
        match r {
            Ok(_) => misfit(change@) is None && final(out)@ == old(out)@ + change_record(change@),
            Err(e) => misfit(change@) == Some(e),
        },
{
    let ghost was = out@;
    let ghost path = change@.path;
    out.push(encode_operation(change.operation));
    if change.bucket_path.len() as u64 > u16::MAX as u64 {
        return Err(Error::InvalidDB(Fault::Text("journal path is too deep")));
    }
    push_u16_be(out, change.bucket_path.len() as u16);
    let ghost head = out@;
    let mut i: usize = 0;
    assert(head + sized_all(path.take(0)) =~= head);
    while i < change.bucket_path.len()
        invariant
            path == change@.path,
            path.len() == change.bucket_path@.len() <= u16::MAX,
            i <= path.len(),
            all_sized(path.take(i as int)),
            out@ == head + sized_all(path.take(i as int)),
        decreases path.len() - i,
    {
        proof {
            assert(path[i as int] == change.bucket_path@[i as int]@);
            assert(path.take(i + 1).drop_last() =~= path.take(i as int));
        }
        match push_bytes(out, &change.bucket_path[i]) {
            Ok(_) => {},
            Err(e) => {
                assert(path[i as int].len() > u32::MAX);
                return Err(e);
            },
        }
        proof {
            assert(out@ =~= head + sized_all(path.take(i + 1)));
            assert forall|j: int| 0 <= j < i + 1 implies (#[trigger] path.take(i + 1)[j]).len()
                <= u32::MAX by {
                if j < i {
                    assert(path.take(i as int)[j] == path[j]);
                }
            }
        }
        i = i + 1;
    }
    assert(path.take(i as int) =~= path);
    match push_bytes(out, &change.key) {
        Ok(_) => {},
        Err(e) => return Err(e),
    }
    assert(out@ =~= was + change_record(change@));
    Ok(())
}

proof fn lemma_misfits_stop(changes: Seq<ChangeView>, n: int)
    requires
        0 <= n <= changes.len(),
        misfits(changes.take(n)) is Some,
    ensures
        misfits(changes) == misfits(changes.take(n)),
    decreases changes.len(),
{
    if n < changes.len() {
        assert(changes.drop_last().take(n) =~= changes.take(n));
        lemma_misfits_stop(changes.drop_last(), n);
    } else {
        assert(changes.take(n) =~= changes);
    }
}

/// Writes a change set as a journal record.
pub fn encode_change_set(set: &ChangeSet) -> (r: Result<Vec<u8>, Error>)
    ensures
        match r {
            Ok(out) => unwritable(set@) is None && out@ == set_record(set@),
            Err(e) => unwritable(set@) == Some(e),
        },
{
    let ghost all = set@.changes;
    let mut out: Vec<u8> = Vec::new();
    out.push(73);
    out.push(83);
    out.push(74);
    out.push(82);
    out.push(
        if set.truncated {
            1
        } else {
            0
        },
    );
    if set.changes.len() as u64 > u32::MAX as u64 {
        return Err(Error::InvalidDB(Fault::Text("journal record is too large")));
    }
    push_u32_be(&mut out, set.changes.len() as u32);
    let ghost head = out@;
    let mut i: usize = 0;
    proof {
        assert(all.take(0) =~= Seq::<ChangeView>::empty());
        assert(head + change_records(all.take(0)) =~= head);
    }
    while i < set.changes.len()
        invariant
            all == set@.changes,
            all.len() == set.changes@.len() <= u32::MAX,
            i <= all.len(),
            misfits(all.take(i as int)) is None,
            out@ == head + change_records(all.take(i as int)),
        decreases all.len() - i,
    {
        proof {
            assert(all[i as int] == set.changes@[i as int]@);
            assert(all.take(i + 1).drop_last() =~= all.take(i as int));
            assert(all.take(i + 1).last() == all[i as int]);
        }
        match push_change(&mut out, &set.changes[i]) {
            Ok(_) => {},
            Err(e) => {
                proof {
                    lemma_misfits_stop(all, i + 1);
                }
                return Err(e);
            },
        }
        assert(out@ =~= head + change_records(all.take(i + 1)));
        i = i + 1;
    }
    proof {
        assert(all.take(i as int) =~= all);
        assert(out@ =~= set_record(set@));
    }
    Ok(out)
}

/// Reading `n` bytes: where they end.
pub open spec fn taken(s: Seq<u8>, at: int, n: int) -> Result<int, Error> {
    if s.len() - at < n {
        Err(invalid("journal record is truncated"))
    } else {
        Ok(at + n)
    }
}

/// Reading a byte string with its length before it.
pub open spec fn sized_at(s: Seq<u8>, at: int) -> Result<(Seq<u8>, int), Error> {
    match taken(s, at, 4) {
        Err(e) => Err(e),
        Ok(from) => match taken(s, from, bytes::be_at(s, at, 4) as int) {
            Err(e) => Err(e),
            Ok(end) => Ok((s.subrange(from, end), end)),
        },
    }
}

/// Reading `n` byte strings with their lengths before them.
pub open spec fn parts_at(s: Seq<u8>, at: int, n: nat) -> Result<(Seq<Seq<u8>>, int), Error>
    decreases n,
{
    if n == 0 {
        Ok((Seq::empty(), at))
    } else {
        match parts_at(s, at, (n - 1) as nat) {
            Err(e) => Err(e),
            Ok((parts, mid)) => match sized_at(s, mid) {
                Err(e) => Err(e),
                Ok((part, end)) => Ok((parts.push(part), end)),
            },
        }
    }
}

/// Reading a change.
pub open spec fn change_at(s: Seq<u8>, at: int) -> Result<(ChangeView, int), Error> {
    match taken(s, at, 1) {
        Err(e) => Err(e),
        Ok(a) => match operation_of(s[at]) {
            Err(e) => Err(e),
            Ok(operation) => match taken(s, a, 2) {
                Err(e) => Err(e),
                Ok(b) => match parts_at(s, b, bytes::be_at(s, a, 2)) {
                    Err(e) => Err(e),
                    Ok((path, c)) => match sized_at(s, c) {
                        Err(e) => Err(e),
                        Ok((key, end)) => Ok((ChangeView { path, key, operation }, end)),
                    },
                },
            },
        },
    }
}

/// Reading `n` changes.
pub open spec fn changes_at(s: Seq<u8>, at: int, n: nat) -> Result<(Seq<ChangeView>, int), Error>
    decreases n,
{
    if n == 0 {
        Ok((Seq::empty(), at))
    } else {
        match changes_at(s, at, (n - 1) as nat) {
            Err(e) => Err(e),
            Ok((list, mid)) => match change_at(s, mid) {
                Err(e) => Err(e),
                Ok((c, end)) => Ok((list.push(c), end)),
            },
        }
    }
}

/// The change set that a journal record holds.
pub open spec fn set_of(id: u64, s: Seq<u8>) -> Result<ChangeSetView, Error> {
    if s.len() < 4 {
        Err(invalid("journal record is truncated"))
    } else if s.take(4) != magic() {
        Err(invalid("journal record magic is invalid"))
    } else if s.len() < 9 {
        Err(invalid("journal record is truncated"))
    } else {
        match changes_at(s, 9, bytes::be_at(s, 5, 4)) {
            Err(e) => Err(e),
            Ok((list, end)) => if end != s.len() {
                Err(invalid("journal record has trailing bytes"))
            } else {
                Ok(ChangeSetView { transaction_id: id, changes: list, truncated: s[4] != 0 })
            },
        }
    }
}

fn read_sized(s: &[u8], at: usize) -> (r: Result<(Vec<u8>, usize), Error>)
    requires
        at <= s@.len(),
    ensures
        match (r, sized_at(s@, at as int)) {
            (Ok((part, end)), Ok((want, to))) => part@ == want && end == to && end <= s@.len(),
            (Err(e), Err(f)) => e == f,
            _ => false,
        },
{
    if s.len() - at < 4 {
        return Err(Error::InvalidDB(Fault::Text("journal record is truncated")));
    }
    let n: u32 = u32_be_at(s, at);
    let from: usize = at + 4;
    if ((s.len() - from) as u64) < n as u64 {
        return Err(Error::InvalidDB(Fault::Text("journal record is truncated")));
    }
    let end: usize = from + n as usize;
    Ok((owned(slice_subrange(s, from, end)), end))
}

proof fn lemma_parts_stop(s: Seq<u8>, at: int, n: nat, k: nat)
    requires
        n <= k,
        parts_at(s, at, n) is Err,
    ensures
        parts_at(s, at, k) is Err,
        parts_at(s, at, k)->Err_0 == parts_at(s, at, n)->Err_0,
    decreases k,
{
    if n < k {
        lemma_parts_stop(s, at, n, (k - 1) as nat);
    }
}

proof fn lemma_changes_stop(s: Seq<u8>, at: int, n: nat, k: nat)
    requires
        n <= k,
        changes_at(s, at, n) is Err,
    ensures
        changes_at(s, at, k) is Err,
        changes_at(s, at, k)->Err_0 == changes_at(s, at, n)->Err_0,
    decreases k,
{
    if n < k {
        lemma_changes_stop(s, at, n, (k - 1) as nat);
    }
}

fn read_change(s: &[u8], at: usize) -> (r: Result<(Change, usize), Error>)
    requires
        at <= s@.len(),
    ensures
        match (r, change_at(s@, at as int)) {
            (Ok((change, end)), Ok((want, to))) => change@ == want && end == to && end <= s@.len(),
            (Err(e), Err(f)) => e == f,
            _ => false,
        },
{
    if s.len() - at < 1 {
        return Err(Error::InvalidDB(Fault::Text("journal record is truncated")));
    }
    let operation: ChangeOperation = match decode_operation(s[at]) {
        Ok(operation) => operation,
        Err(e) => return Err(e),
    };
    let a: usize = at + 1;
    if s.len() - a < 2 {
        return Err(Error::InvalidDB(Fault::Text("journal record is truncated")));
    }
    let n: usize = u16_be_at(s, a) as usize;
    let b: usize = a + 2;
    let mut path: Vec<Vec<u8>> = Vec::new();
    let mut pos: usize = b;
    let mut i: usize = 0;
    assert(changes::path_view(path@) =~= Seq::<Seq<u8>>::empty());
    while i < n
        invariant
            i <= n,
            b <= pos <= s@.len(),
            at + 3 == b,
            a == at + 1,
            n == bytes::be_at(s@, a as int, 2),
            operation_of(s@[at as int]) == Ok::<ChangeOperation, Error>(operation),
            parts_at(s@, b as int, i as nat) == Ok::<(Seq<Seq<u8>>, int), Error>(
                (changes::path_view(path@), pos as int),
            ),
        decreases n - i,
    {
        let ghost was = changes::path_view(path@);
        match read_sized(s, pos) {
            Ok((part, end)) => {
                let ghost view = part@;
                path.push(part);
                assert(changes::path_view(path@) =~= was.push(view));
                pos = end;
            },
            Err(e) => {
                proof {
                    lemma_parts_stop(s@, b as int, (i + 1) as nat, n as nat);
                }
                return Err(e);
            },
        }
        i = i + 1;
    }
    match read_sized(s, pos) {
        Ok((key, end)) => {
            let change: Change = Change { bucket_path: path, key, operation };
            Ok((change, end))
        },
        Err(e) => Err(e),
    }
}

/// Reads a journal record.
pub fn decode_change_set(transaction_id: u64, s: &[u8]) -> (r: Result<ChangeSet, Error>)
    ensures
        match (r, set_of(transaction_id, s@)) {
            (Ok(set), Ok(want)) => set@ == want,
            (Err(e), Err(f)) => e == f,
            _ => false,
        },
{
    if s.len() < 4 {
        return Err(Error::InvalidDB(Fault::Text("journal record is truncated")));
    }
    if !(s[0] == 73 && s[1] == 83 && s[2] == 74 && s[3] == 82) {
        proof {
            if s@.take(4) == magic() {
                assert(s@.take(4)[0] == 73);
                assert(s@.take(4)[1] == 83);
                assert(s@.take(4)[2] == 74);
                assert(s@.take(4)[3] == 82);
            }
        }
        return Err(Error::InvalidDB(Fault::Text("journal record magic is invalid")));
    }
    assert(s@.take(4) =~= magic());
    if s.len() < 9 {
        return Err(Error::InvalidDB(Fault::Text("journal record is truncated")));
    }
    let truncated: bool = s[4] != 0;
    let n: u32 = u32_be_at(s, 5);
    let mut list: Vec<Change> = Vec::new();
    let mut pos: usize = 9;
    let mut i: u32 = 0;
    assert(changes::changes_view(list@) =~= Seq::<ChangeView>::empty());
    while i < n
        invariant
            i <= n,
            s@.len() >= 9,
            s@.take(4) == magic(),
            pos <= s@.len(),
            n == bytes::be_at(s@, 5, 4),
            changes_at(s@, 9, i as nat) == Ok::<(Seq<ChangeView>, int), Error>(
                (changes::changes_view(list@), pos as int),
            ),
        decreases n - i,
    {
        let ghost was = changes::changes_view(list@);
        match read_change(s, pos) {
            Ok((change, end)) => {
                let ghost view = change@;
                list.push(change);
                assert(changes::changes_view(list@) =~= was.push(view));
                pos = end;
            },
            Err(e) => {
                proof {
                    lemma_changes_stop(s@, 9, (i + 1) as nat, n as nat);
                }
                return Err(e);
            },
        }
        i = i + 1;
    }
    if pos != s.len() {
        return Err(Error::InvalidDB(Fault::Text("journal record has trailing bytes")));
    }
    Ok(ChangeSet { transaction_id, changes: list, truncated })
}

proof fn lemma_sized_reads(s: Seq<u8>, at: int, part: Seq<u8>)
    requires
        part.len() <= u32::MAX,
        0 <= at,
        at + sized(part).len() <= s.len(),
        s.subrange(at, at + sized(part).len() as int) == sized(part),
    ensures
        sized_at(s, at) == Ok::<(Seq<u8>, int), Error>((part, at + sized(part).len() as int)),
        sized(part).len() == 4 + part.len(),
{
    let w = sized(part);
    bytes::lemma_be_of_len(part.len(), 4);
    bytes::lemma_pow256_widths();
    assert(s.subrange(at, at + 4) =~= w.subrange(0, 4));
    assert(w.subrange(0, 4) =~= bytes::be_of(part.len(), 4));
    bytes::lemma_be_field(s, at, part.len(), 4);
    assert(s.subrange(at + 4, at + w.len() as int) =~= w.subrange(4, w.len() as int));
    assert(w.subrange(4, w.len() as int) =~= part);
}

proof fn lemma_parts_read(s: Seq<u8>, at: int, parts: Seq<Seq<u8>>)
    requires
        all_sized(parts),
        0 <= at,
        at + sized_all(parts).len() <= s.len(),
        s.subrange(at, at + sized_all(parts).len() as int) == sized_all(parts),
    ensures
        parts_at(s, at, parts.len()) == Ok::<(Seq<Seq<u8>>, int), Error>(
            (parts, at + sized_all(parts).len() as int),
        ),
    decreases parts.len(),
{
    if parts.len() > 0 {
        let front = parts.drop_last();
        let w = sized_all(parts);
        let f = sized_all(front);
        assert forall|i: int| 0 <= i < front.len() implies (#[trigger] front[i]).len()
            <= u32::MAX by {
            assert(front[i] == parts[i]);
        }
        assert(s.subrange(at, at + f.len() as int) =~= w.subrange(0, f.len() as int));
        assert(w.subrange(0, f.len() as int) =~= f);
        lemma_parts_read(s, at, front);
        let mid = at + f.len() as int;
        assert(s.subrange(mid, mid + sized(parts.last()).len() as int) =~= w.subrange(
            f.len() as int,
            w.len() as int,
        ));
        assert(w.subrange(f.len() as int, w.len() as int) =~= sized(parts.last()));
        assert(parts[parts.len() - 1].len() <= u32::MAX);
        lemma_sized_reads(s, mid, parts.last());
        assert(front.push(parts.last()) =~= parts);
    } else {
        assert(parts =~= Seq::<Seq<u8>>::empty());
    }
}

#[verifier::rlimit(30)]
#[verifier::spinoff_prover]
proof fn lemma_change_reads(s: Seq<u8>, at: int, c: ChangeView)
    requires
        misfit(c) is None,
        0 <= at,
        at + change_record(c).len() <= s.len(),
        s.subrange(at, at + change_record(c).len() as int) == change_record(c),
    ensures
        change_at(s, at) == Ok::<(ChangeView, int), Error>(
            (c, at + change_record(c).len() as int),
        ),
{
    let w = change_record(c);
    let n = w.len() as int;
    bytes::lemma_be_of_len(c.path.len(), 2);
    bytes::lemma_pow256_widths();
    let r = s.subrange(at, at + n);
    assert(s[at] == r[0]);
    assert(w[0] == code_of(c.operation));
    assert(s.subrange(at + 1, at + 3) =~= r.subrange(1, 3));
    assert(w.subrange(1, 3) =~= bytes::be_of(c.path.len(), 2));
    bytes::lemma_be_field(s, at + 1, c.path.len(), 2);
    let p = sized_all(c.path);
    let m = 3 + p.len() as int;
    assert(s.subrange(at + 3, at + m) =~= r.subrange(3, m));
    assert(w.subrange(3, m) =~= p);
    lemma_parts_read(s, at + 3, c.path);
    bytes::lemma_be_of_len(c.key.len(), 4);
    assert(m + sized(c.key).len() == n);
    assert(s.subrange(at + m, at + n) =~= r.subrange(m, n));
    assert(w.subrange(m, n) =~= sized(c.key));
    lemma_sized_reads(s, at + m, c.key);
}

proof fn lemma_changes_read(s: Seq<u8>, at: int, list: Seq<ChangeView>)
    requires
        misfits(list) is None,
        0 <= at,
        at + change_records(list).len() <= s.len(),
        s.subrange(at, at + change_records(list).len() as int) == change_records(list),
    ensures
        changes_at(s, at, list.len()) == Ok::<(Seq<ChangeView>, int), Error>(
            (list, at + change_records(list).len() as int),
        ),
    decreases list.len(),
{
    if list.len() > 0 {
        let front = list.drop_last();
        let w = change_records(list);
        let f = change_records(front);
        assert(s.subrange(at, at + f.len() as int) =~= w.subrange(0, f.len() as int));
        assert(w.subrange(0, f.len() as int) =~= f);
        lemma_changes_read(s, at, front);
        let mid = at + f.len() as int;
        assert(s.subrange(mid, mid + change_record(list.last()).len() as int) =~= w.subrange(
            f.len() as int,
            w.len() as int,
        ));
        assert(w.subrange(f.len() as int, w.len() as int) =~= change_record(list.last()));
        lemma_change_reads(s, mid, list.last());
        assert(front.push(list.last()) =~= list);
    } else {
        assert(list =~= Seq::<ChangeView>::empty());
    }
}

/// A change set that was written to the journal is read back as it was.
pub proof fn law_journal_reads_what_was_written(set: ChangeSetView)
    requires
        unwritable(set) is None,
    ensures
        set_of(set.transaction_id, set_record(set)) == Ok::<ChangeSetView, Error>(set),
{
    let s = set_record(set);
    let body = change_records(set.changes);
    let n = set.changes.len();
    bytes::lemma_be_of_len(n, 4);
    bytes::lemma_pow256_widths();
    assert(s.len() == 9 + body.len());
    assert(s.take(4) =~= magic());
    assert(s.subrange(5, 9) =~= bytes::be_of(n, 4));
    bytes::lemma_be_field(s, 5, n, 4);
    assert(s.subrange(9, 9 + body.len() as int) =~= body);
    lemma_changes_read(s, 9, set.changes);
    assert(s[4] == (if set.truncated {
        1u8
    } else {
        0
    }));
}

proof fn lemma_sized_extends(s: Seq<u8>, more: Seq<u8>, at: int)
    requires
        0 <= at,
        s.is_prefix_of(more),
        sized_at(s, at) is Ok,
    ensures
        sized_at(more, at) == sized_at(s, at),
        at <= sized_at(s, at)->Ok_0.1 <= s.len(),
{
    let end = sized_at(s, at)->Ok_0.1;
    assert(more.subrange(at, at + 4) =~= s.subrange(at, at + 4));
    assert(more.subrange(at + 4, end) =~= s.subrange(at + 4, end));
}

proof fn lemma_parts_extend(s: Seq<u8>, more: Seq<u8>, at: int, n: nat)
    requires
        0 <= at <= s.len(),
        s.is_prefix_of(more),
        parts_at(s, at, n) is Ok,
    ensures
        parts_at(more, at, n) == parts_at(s, at, n),
        at <= parts_at(s, at, n)->Ok_0.1 <= s.len(),
    decreases n,
{
    if n > 0 {
        lemma_parts_extend(s, more, at, (n - 1) as nat);
        lemma_sized_extends(s, more, parts_at(s, at, (n - 1) as nat)->Ok_0.1);
    }
}

/// What was read of the changes of a record is read the same where more
/// follows.
proof fn lemma_changes_extend(s: Seq<u8>, more: Seq<u8>, at: int, n: nat)
    requires
        0 <= at <= s.len(),
        s.is_prefix_of(more),
        changes_at(s, at, n) is Ok,
    ensures
        changes_at(more, at, n) == changes_at(s, at, n),
        at <= changes_at(s, at, n)->Ok_0.1 <= s.len(),
    decreases n,
{
    if n > 0 {
        lemma_changes_extend(s, more, at, (n - 1) as nat);
        let mid = changes_at(s, at, (n - 1) as nat)->Ok_0.1;
        assert(change_at(s, mid) is Ok);
        assert(more[mid] == s[mid]);
        assert(more.subrange(mid + 1, mid + 3) =~= s.subrange(mid + 1, mid + 3));
        lemma_parts_extend(s, more, mid + 3, bytes::be_at(s, mid + 1, 2));
        lemma_sized_extends(
            s,
            more,
            parts_at(s, mid + 3, bytes::be_at(s, mid + 1, 2))->Ok_0.1,
        );
    }
}

/// Of two records of which one begins with the other, at most one can be read.
proof fn lemma_records_end(id: u64, other: u64, s: Seq<u8>, more: Seq<u8>)
    requires
        s.is_prefix_of(more),
        s.len() < more.len(),
        set_of(id, s) is Ok,
    ensures
        set_of(other, more) == Err::<ChangeSetView, Error>(
            invalid("journal record has trailing bytes"),
        ),
{
    assert(more.take(4) =~= s.take(4));
    assert(more.subrange(5, 9) =~= s.subrange(5, 9));
    lemma_changes_extend(s, more, 9, bytes::be_at(s, 5, 4));
}

/// A record of the journal is read whole or not at all: nothing that it begins
/// with is a record, and nothing may follow it.
pub proof fn law_records_are_whole(set: ChangeSetView, id: u64, n: int, tail: Seq<u8>)
    requires
        unwritable(set) is None,
        0 <= n < set_record(set).len(),
        tail.len() > 0,
    ensures
        set_of(id, set_record(set).take(n)) is Err,
        set_of(id, set_record(set) + tail) == Err::<ChangeSetView, Error>(
            invalid("journal record has trailing bytes"),
        ),
{
    let e = set_record(set);
    law_journal_reads_what_was_written(set);
    assert(e.is_prefix_of(e + tail));
    lemma_records_end(set.transaction_id, id, e, e + tail);
    if set_of(id, e.take(n)) is Ok {
        assert(e.take(n).is_prefix_of(e));
        lemma_records_end(id, set.transaction_id, e.take(n), e);
    }
}

/// The keys of transactions in a list, in order.
pub open spec fn tx_keys(l: Seq<DataView>) -> Seq<Seq<u8>>
    decreases l.len(),
{
    if l.len() == 0 {
        Seq::empty()
    } else {
        let front = tx_keys(l.drop_last());
        if l.last() is KeyValue && tx_of(l.last().key()) is Some {
            front.push(l.last().key())
        } else {
            front
        }
    }
}

/// Removing values under several keys.
pub open spec fn dropped(t: Tree, keys: Seq<Seq<u8>>) -> Tree
    decreases keys.len(),
{
    if keys.len() == 0 {
        t
    } else {
        tree::without(dropped(t, keys.drop_last()), keys.last())
    }
}

/// The journal with a record more, and without the oldest beyond what is kept.
pub open spec fn journal_with(t: Tree, id: u64, record: Seq<u8>, kept: u64) -> Result<Tree, Error> {
    match tree::put(t, tx_key_of(id), record) {
        Err(e) => Err(e),
        Ok((_, t)) => {
            let keys = tx_keys(cursor::data_in(t));
            Ok(
                if keys.len() > kept {
                    dropped(t, keys.take(keys.len() - kept))
                } else {
                    t
                },
            )
        },
    }
}

/// A root with the journal of a commit: nothing changes where there is no
/// journal.
pub open spec fn journaled(root: Tree, set: ChangeSetView) -> Result<Tree, Error> {
    match tree::child_of(root, names::journal_name()) {
        Err(e) => if e == Error::BucketMissing {
            Ok(root)
        } else {
            Err(e)
        },
        Ok(journal) => match tree::value_of(journal, names::config_name()) {
            None => Err(invalid("journal configuration is missing")),
            Some(config) => match number_of(config) {
                Err(e) => Err(e),
                Ok(kept) => match unwritable(set) {
                    Some(e) => Err(e),
                    None => match journal_with(
                        journal,
                        set.transaction_id,
                        set_record(set),
                        kept,
                    ) {
                        Err(e) => Err(e),
                        Ok(journal) => Ok(
                            tree::with_child(root, names::journal_name(), journal),
                        ),
                    },
                },
            },
        },
    }
}

/// Lists the keys of transactions in the journal.
fn find_tx_keys(node: &Node) -> (r: Vec<Vec<u8>>)
    requires
        node.wf(),
    ensures
        changes::path_view(r@) == tx_keys(cursor::data_in(node@)),
{
    let ghost l = cursor::data_in(node@);
    proof {
        crate::api::map::lemma_data_in_order(*node);
    }
    let mut out: Vec<Vec<u8>> = Vec::new();
    let mut i: usize = 0;
    assert(changes::path_view(out@) =~= tx_keys(l.take(0)));
    while i < node.len()
        invariant
            node.wf(),
            l == cursor::data_in(node@),
            l.len() == node.leaves().len(),
            i <= l.len(),
            changes::path_view(out@) == tx_keys(l.take(i as int)),
        decreases l.len() - i,
    {
        let ghost was = changes::path_view(out@);
        proof {
            node.lemma_leaves();
            assert(l.take(i + 1).drop_last() =~= l.take(i as int));
            assert(l.take(i + 1).last() == l[i as int]);
            assert(tree::listing(node@)[i as int] == (
                node.leaves()[i as int].0,
                node.leaves()[i as int].1.item(),
            ));
        }
        let key: &Vec<u8> = node.key_at(i);
        let leaf: &Leaf = node.leaf_at(i);
        proof {
            leaf.lemma_item();
        }
        match leaf {
            Leaf::Kv(_) => match decode_tx_key(key) {
                Some(_) => {
                    out.push(owned(key));
                    assert(changes::path_view(out@) =~= was.push(key@));
                },
                None => {},
            },
            Leaf::Bucket(_) => {},
        }
        i = i + 1;
    }
    assert(l.take(i as int) =~= l);
    out
}

proof fn lemma_tx_keys(l: Seq<DataView>)
    requires
        cursor::in_order(l),
    ensures
        forall|j: int|
            0 <= j < tx_keys(l).len() ==> exists|i: int|
                0 <= i < l.len() && (#[trigger] l[i]) is KeyValue && l[i].key()
                    == #[trigger] tx_keys(l)[j],
        forall|a: int, b: int|
            0 <= a < b < tx_keys(l).len() ==> bytes::lex_lt(
                #[trigger] tx_keys(l)[a],
                #[trigger] tx_keys(l)[b],
            ),
    decreases l.len(),
{
    if l.len() > 0 {
        let front = l.drop_last();
        let p = tx_keys(front);
        let q = tx_keys(l);
        let n = l.len() - 1;
        assert(cursor::in_order(front)) by {
            assert forall|i: int, j: int| 0 <= i < j < front.len() implies bytes::lex_lt(
                (#[trigger] front[i]).key(),
                (#[trigger] front[j]).key(),
            ) by {
                assert(bytes::lex_lt(l[i].key(), l[j].key()));
            }
        }
        lemma_tx_keys(front);
        assert forall|j: int| 0 <= j < q.len() implies exists|i: int|
            0 <= i < l.len() && (#[trigger] l[i]) is KeyValue && l[i].key() == #[trigger] q[j] by {
            if j < p.len() {
                assert(q[j] == p[j]);
                let i = choose|i: int|
                    0 <= i < front.len() && (#[trigger] front[i]) is KeyValue && front[i].key()
                        == p[j];
                assert(l[i] == front[i]);
            } else {
                assert(l[n].key() == q[j]);
            }
        }
        assert forall|a: int, b: int| 0 <= a < b < q.len() implies bytes::lex_lt(
            #[trigger] q[a],
            #[trigger] q[b],
        ) by {
            assert(q[a] == p[a]);
            if b < p.len() {
                assert(q[b] == p[b]);
            } else {
                let i = choose|i: int|
                    0 <= i < front.len() && (#[trigger] front[i]) is KeyValue && front[i].key()
                        == p[a];
                assert(bytes::lex_lt(l[i].key(), l[n].key()));
            }
        }
    }
}

pub proof fn lemma_dropped(t: Tree, keys: Seq<Seq<u8>>)
    ensures
        forall|k: Seq<u8>| #[trigger]
            dropped(t, keys).items.contains_key(k) <==> t.items.contains_key(k) && !keys.contains(
                k,
            ),
        forall|k: Seq<u8>| #[trigger]
            dropped(t, keys).items.contains_key(k) ==> dropped(t, keys).items[k] == t.items[k],
        dropped(t, keys).next_int == t.next_int,
    decreases keys.len(),
{
    if keys.len() > 0 {
        let front = keys.drop_last();
        lemma_dropped(t, front);
        assert forall|k: Seq<u8>| keys.contains(k) <==> front.contains(k) || k == keys.last() by {
            if front.contains(k) {
                let i = choose|i: int| 0 <= i < front.len() && front[i] == k;
                assert(keys[i] == k);
            }
            if keys.contains(k) {
                let i = choose|i: int| 0 <= i < keys.len() && keys[i] == k;
                if i < front.len() {
                    assert(front[i] == k);
                }
            }
            if k == keys.last() {
                assert(keys[keys.len() - 1] == k);
            }
        }
    }
}

fn add_record(journal: &mut Node, id: u64, record: Vec<u8>, kept: u64) -> (r: Result<(), Error>)
    requires
        old(journal).wf(),
    ensures
        final(journal).wf(),
        match (r, journal_with(old(journal)@, id, record@, kept)) {
            (Ok(_), Ok(t)) => final(journal)@ == t,
            (Err(e), Err(f)) => e == f && final(journal)@ == old(journal)@,
            _ => false,
        },
{
    match journal.put(&tx_key(id), record) {
        Ok(_) => {},
        Err(e) => return Err(e),
    }
    let ghost t = journal@;
    let ghost l = cursor::data_in(t);
    let keys: Vec<Vec<u8>> = find_tx_keys(journal);
    let ghost all = changes::path_view(keys@);
    proof {
        crate::api::map::lemma_data_in_order(*journal);
        lemma_tx_keys(l);
    }
    if keys.len() as u64 <= kept {
        return Ok(());
    }
    let gone: usize = keys.len() - kept as usize;
    let ghost origin = *journal;
    let mut i: usize = 0;
    assert(all.take(0) =~= Seq::<Seq<u8>>::empty());
    while i < gone
        invariant
            i <= gone <= keys@.len(),
            journal.wf(),
            origin.wf(),
            origin@ == t,
            l == cursor::data_in(t),
            cursor::in_order(l),
            all == changes::path_view(keys@),
            all == tx_keys(l),
            journal@ == dropped(t, all.take(i as int)),
        decreases gone - i,
    {
        let ghost now = journal@;
        proof {
            lemma_tx_keys(l);
            lemma_dropped(t, all.take(i as int));
            assert(all[i as int] == keys@[i as int]@);
            let x = choose|x: int|
                0 <= x < l.len() && (#[trigger] l[x]) is KeyValue && l[x].key() == all[i as int];
            origin.lemma_leaves();
            assert(tree::listing(t)[x] == (origin.leaves()[x].0, origin.leaves()[x].1.item()));
            assert(t.items.contains_key(origin.leaves()[x].0));
            assert(!all.take(i as int).contains(all[i as int])) by {
                if all.take(i as int).contains(all[i as int]) {
                    let j = choose|j: int|
                        0 <= j < all.take(i as int).len() && all.take(i as int)[j] == all[i as int];
                    assert(bytes::lex_lt(all[j], all[i as int]));
                    bytes::lemma_lex_irreflexive(all[i as int]);
                }
            }
            assert(now.items.contains_key(all[i as int]));
            assert(all.take(i + 1).drop_last() =~= all.take(i as int));
            assert(all.take(i + 1).last() == all[i as int]);
        }
        let _value: Result<Vec<u8>, Error> = journal.delete(&keys[i]);
        i = i + 1;
    }
    Ok(())
}

/// Adds a commit's changes to the journal, if there is one.
pub fn persist(root: &mut Node, set: &ChangeSet) -> (r: Result<(), Error>)
    requires
        old(root).wf(),
    ensures
        final(root).wf(),
        match (r, journaled(old(root)@, set@)) {
            (Ok(_), Ok(t)) => final(root)@ == t,
            (Err(e), Err(f)) => e == f && final(root)@ == old(root)@,
            _ => false,
        },
{
    let name: Vec<u8> = journal_bucket();
    let kept: u64 = match root.child(&name) {
        Err(Error::BucketMissing) => return Ok(()),
        Err(e) => return Err(e),
        Ok(journal) => match journal.get_kv(&config_key()) {
            None => return Err(
                Error::InvalidDB(Fault::Text("journal configuration is missing")),
            ),
            Some(config) => match decode_u64(config) {
                Ok(kept) => kept,
                Err(e) => return Err(e),
            },
        },
    };
    let record: Vec<u8> = match encode_change_set(set) {
        Ok(record) => record,
        Err(e) => return Err(e),
    };
    let ghost t = root@;
    let r: Result<(), Error> = match root.child_mut(&name) {
        Err(e) => return Err(e),
        Ok(journal) => add_record(journal, set.transaction_id, record, kept),
    };
    proof {
        let journal = tree::child_of(t, names::journal_name())->Ok_0;
        assert(tree::with_child(t, names::journal_name(), journal).items =~= t.items);
    }
    r
}

/// What goes from the journal is older than all that stays.
pub proof fn law_oldest_records_go_first(node: Node, n: int, gone: Seq<u8>, kept: Seq<u8>)
    requires
        node.wf(),
        0 <= n <= tx_keys(cursor::data_in(node@)).len(),
        tx_keys(cursor::data_in(node@)).take(n).contains(gone),
        tx_keys(cursor::data_in(node@)).skip(n).contains(kept),
    ensures
        bytes::lex_lt(gone, kept),
{
    crate::api::map::lemma_data_in_order(node);
    let all = tx_keys(cursor::data_in(node@));
    lemma_tx_keys(cursor::data_in(node@));
    let a = all.take(n);
    let b = all.skip(n);
    let i = choose|i: int| 0 <= i < a.len() && a[i] == gone;
    let j = choose|j: int| 0 <= j < b.len() && b[j] == kept;
    assert(all[i] == gone);
    assert(all[n + j] == kept);
}

/// Turning the journal on.
pub open spec fn enabled(root: Tree, config: JournalConfig) -> Result<Tree, Error> {
    if config.max_transactions == 0 {
        Err(invalid("journal retention must be non-zero"))
    } else {
        match tree::ensured(root, names::journal_name()) {
            Err(e) => Err(e),
            Ok(t) => {
                let journal = tree::child_of(t, names::journal_name())->Ok_0;
                match tree::put(
                    journal,
                    names::config_name(),
                    bytes::be_of(config.max_transactions as nat, 8),
                ) {
                    Err(e) => Err(e),
                    Ok((_, journal)) => Ok(tree::with_child(t, names::journal_name(), journal)),
                }
            },
        }
    }
}

/// Enables the durable journal. Records contain metadata only, never values.
pub fn enable(root: &mut Node, config: JournalConfig) -> (r: Result<(), Error>)
    requires
        old(root).wf(),
    ensures
        final(root).wf(),
        match (r, enabled(old(root)@, config)) {
            (Ok(_), Ok(t)) => final(root)@ == t,
            (Err(e), Err(f)) => e == f,
            _ => false,
        },
{
    if config.max_transactions == 0 {
        return Err(Error::InvalidDB(Fault::Text("journal retention must be non-zero")));
    }
    let name: Vec<u8> = journal_bucket();
    match root.ensure_bucket(&name) {
        Ok(_) => {},
        Err(e) => return Err(e),
    }
    match root.child_mut(&name) {
        Err(e) => Err(e),
        Ok(journal) => match journal.put(&config_key(), encode_u64(config.max_transactions)) {
            Ok(_) => Ok(()),
            Err(e) => Err(e),
        },
    }
}

/// Storing a consumer's checkpoint.
pub open spec fn checkpointed(root: Tree, consumer: Seq<u8>, id: u64) -> Result<Tree, Error> {
    match checkpoint_key_of(consumer) {
        Err(e) => Err(e),
        Ok(key) => match tree::child_of(root, names::journal_name()) {
            Err(e) => Err(e),
            Ok(journal) => match tree::put(journal, key, bytes::be_of(id as nat, 8)) {
                Err(e) => Err(e),
                Ok((_, journal)) => Ok(tree::with_child(root, names::journal_name(), journal)),
            },
        },
    }
}

/// Stores a consumer checkpoint without preventing retention or gap detection.
pub fn checkpoint(root: &mut Node, consumer: &[u8], id: u64) -> (r: Result<(), Error>)
    requires
        old(root).wf(),
    ensures
        final(root).wf(),
        match (r, checkpointed(old(root)@, consumer@, id)) {
            (Ok(_), Ok(t)) => final(root)@ == t,
            (Err(e), Err(f)) => e == f,
            _ => false,
        },
{
    let key: Vec<u8> = match checkpoint_key(consumer) {
        Ok(key) => key,
        Err(e) => return Err(e),
    };
    match root.child_mut(&journal_bucket()) {
        Err(e) => Err(e),
        Ok(journal) => match journal.put(&key, encode_u64(id)) {
            Ok(_) => Ok(()),
            Err(e) => Err(e),
        },
    }
}

/// A consumer's checkpoint.
pub open spec fn checkpoint_of(root: Tree, consumer: Seq<u8>) -> Result<Option<u64>, Error> {
    match checkpoint_key_of(consumer) {
        Err(e) => Err(e),
        Ok(key) => match tree::child_of(root, names::journal_name()) {
            Err(e) => if e == Error::BucketMissing {
                Ok(None)
            } else {
                Err(e)
            },
            Ok(journal) => match tree::value_of(journal, key) {
                None => Ok(None),
                Some(value) => match number_of(value) {
                    Ok(id) => Ok(Some(id)),
                    Err(e) => Err(e),
                },
            },
        },
    }
}

/// Reads a consumer's checkpoint.
pub fn read_checkpoint(root: &Node, consumer: &[u8]) -> (r: Result<Option<u64>, Error>)
    requires
        root.wf(),
    ensures
        r == checkpoint_of(root@, consumer@),
{
    let key: Vec<u8> = match checkpoint_key(consumer) {
        Ok(key) => key,
        Err(e) => return Err(e),
    };
    match root.child(&journal_bucket()) {
        Err(Error::BucketMissing) => Ok(None),
        Err(e) => Err(e),
        Ok(journal) => match journal.get_kv(&key) {
            None => Ok(None),
            Some(value) => match decode_u64(value) {
                Ok(id) => Ok(Some(id)),
                Err(e) => Err(e),
            },
        },
    }
}

/// A checkpoint that was stored is read back.
pub proof fn law_checkpoint_reads_back(root: Tree, consumer: Seq<u8>, id: u64)
    requires
        checkpointed(root, consumer, id) is Ok,
    ensures
        checkpoint_of(checkpointed(root, consumer, id)->Ok_0, consumer) == Ok::<
            Option<u64>,
            Error,
        >(Some(id)),
{
    bytes::lemma_pow256_widths();
    bytes::lemma_be_round_trip(id as nat, 8);
}

/// A checkpoint changes nothing else: not how many transactions are kept, not
/// the checkpoint of another consumer, and no journaled transaction.
pub proof fn law_checkpoint_leaves_the_rest(
    root: Tree,
    consumer: Seq<u8>,
    other: Seq<u8>,
    id: u64,
    tx: u64,
)
    requires
        checkpointed(root, consumer, id) is Ok,
        other != consumer,
    ensures
        ({
            let after = checkpointed(root, consumer, id)->Ok_0;
            let was = tree::child_of(root, names::journal_name())->Ok_0;
            let now = tree::child_of(after, names::journal_name())->Ok_0;
            &&& tree::child_of(root, names::journal_name()) is Ok
            &&& tree::child_of(after, names::journal_name()) is Ok
            &&& tree::value_of(now, names::config_name()) == tree::value_of(
                was,
                names::config_name(),
            )
            &&& checkpoint_of(after, other) == checkpoint_of(root, other)
            &&& tree::value_of(now, tx_key_of(tx)) == tree::value_of(was, tx_key_of(tx))
        }),
{
    law_checkpoint_keys_are_apart(consumer, consumer);
    law_tx_keys_are_in_order(tx, tx);
    if checkpoint_key_of(other) is Ok {
        law_checkpoint_keys_are_apart(consumer, other);
    }
}

/// The records of a journal, in order.
pub open spec fn records(l: Seq<DataView>) -> Seq<(u64, Seq<u8>)>
    decreases l.len(),
{
    if l.len() == 0 {
        Seq::empty()
    } else {
        let front = records(l.drop_last());
        match l.last() {
            DataView::Bucket(_) => front,
            DataView::KeyValue(key, value) => match tx_of(key) {
                Some(id) => front.push((id, value)),
                None => front,
            },
        }
    }
}

/// A change set of which a filter asks for some changes.
pub open spec fn sifted(set: ChangeSetView, filter: Option<changes::FilterView>) -> ChangeSetView {
    match filter {
        None => set,
        Some(f) => ChangeSetView { changes: changes::selected(f, set.changes), ..set },
    }
}

/// The transactions of a journal after `after`, up to `limit` of them.
pub open spec fn replayed(
    list: Seq<(u64, Seq<u8>)>,
    after: u64,
    limit: nat,
    filter: Option<changes::FilterView>,
) -> Result<Seq<ChangeSetView>, Error>
    decreases list.len(),
{
    if list.len() == 0 {
        Ok(Seq::empty())
    } else {
        match replayed(list.drop_last(), after, limit, filter) {
            Err(e) => Err(e),
            Ok(sets) => if list.last().0 <= after || sets.len() == limit {
                Ok(sets)
            } else {
                match set_of(list.last().0, list.last().1) {
                    Err(e) => Err(e),
                    Ok(set) => Ok(sets.push(sifted(set, filter))),
                }
            },
        }
    }
}

/// The history that was asked for and is no longer there.
pub open spec fn gap_before(list: Seq<(u64, Seq<u8>)>, after: u64) -> Option<JournalGap> {
    if list.len() > 0 && after < u64::MAX && after + 1 < list[0].0 {
        Some(JournalGap { requested_after: after, oldest_available: list[0].0 })
    } else {
        None
    }
}

proof fn lemma_replayed_stops(
    list: Seq<(u64, Seq<u8>)>,
    after: u64,
    limit: nat,
    filter: Option<changes::FilterView>,
    n: int,
)
    requires
        0 <= n <= list.len(),
        replayed(list.take(n), after, limit, filter) is Err,
    ensures
        replayed(list, after, limit, filter) is Err,
        replayed(list, after, limit, filter)->Err_0 == replayed(
            list.take(n),
            after,
            limit,
            filter,
        )->Err_0,
    decreases list.len(),
{
    if n < list.len() {
        assert(list.drop_last().take(n) =~= list.take(n));
        lemma_replayed_stops(list.drop_last(), after, limit, filter, n);
    } else {
        assert(list.take(n) =~= list);
    }
}

/// Records with their bytes.
pub open spec fn records_view(list: Seq<(u64, Vec<u8>)>) -> Seq<(u64, Seq<u8>)> {
    list.map_values(|r: (u64, Vec<u8>)| (r.0, r.1@))
}

fn find_records(node: &Node) -> (r: Vec<(u64, Vec<u8>)>)
    requires
        node.wf(),
    ensures
        records_view(r@) == records(cursor::data_in(node@)),
{
    let ghost l = cursor::data_in(node@);
    proof {
        crate::api::map::lemma_data_in_order(*node);
    }
    let mut out: Vec<(u64, Vec<u8>)> = Vec::new();
    let mut i: usize = 0;
    assert(records_view(out@) =~= records(l.take(0)));
    while i < node.len()
        invariant
            node.wf(),
            l == cursor::data_in(node@),
            l.len() == node.leaves().len(),
            i <= l.len(),
            records_view(out@) == records(l.take(i as int)),
        decreases l.len() - i,
    {
        let ghost was = records_view(out@);
        proof {
            node.lemma_leaves();
            assert(l.take(i + 1).drop_last() =~= l.take(i as int));
            assert(l.take(i + 1).last() == l[i as int]);
            assert(tree::listing(node@)[i as int] == (
                node.leaves()[i as int].0,
                node.leaves()[i as int].1.item(),
            ));
        }
        let key: &Vec<u8> = node.key_at(i);
        let leaf: &Leaf = node.leaf_at(i);
        proof {
            leaf.lemma_item();
        }
        match leaf {
            Leaf::Kv(value) => match decode_tx_key(key) {
                Some(id) => {
                    out.push((id, owned(value)));
                    assert(records_view(out@) =~= was.push((id, value@)));
                },
                None => {},
            },
            Leaf::Bucket(_) => {},
        }
        i = i + 1;
    }
    assert(l.take(i as int) =~= l);
    out
}

/// What an optional filter asks for.
pub open spec fn filter_view(filter: Option<&WatchFilter>) -> Option<changes::FilterView> {
    match filter {
        Some(f) => Some(f@),
        None => None,
    }
}

/// Whether a replay is that of the records.
pub open spec fn replays(
    r: JournalReplay,
    list: Seq<(u64, Seq<u8>)>,
    after: u64,
    limit: nat,
    filter: Option<changes::FilterView>,
) -> bool {
    &&& replayed(list, after, limit, filter) == Ok::<Seq<ChangeSetView>, Error>(
        changes::sets_view(r.transactions@),
    )
    &&& r.gap == gap_before(list, after)
    &&& r.oldest_available == (if list.len() > 0 {
        Some(list[0].0)
    } else {
        None
    })
    &&& r.newest_available == (if list.len() > 0 {
        Some(list.last().0)
    } else {
        None
    })
}

/// Replays complete transactions strictly after `after`.
pub fn replay(root: &Node, after: u64, limit: usize, filter: Option<&WatchFilter>) -> (r: Result<
    JournalReplay,
    Error,
>)
    requires
        root.wf(),
    ensures
        match tree::child_of(root@, names::journal_name()) {
            Err(e) => if e == Error::BucketMissing {
                r is Ok && replays(r->Ok_0, Seq::empty(), after, limit as nat, filter_view(filter))
            } else {
                r == Err::<JournalReplay, Error>(e)
            },
            Ok(journal) => {
                let list = records(cursor::data_in(journal));
                match r {
                    Ok(replay) => replays(replay, list, after, limit as nat, filter_view(filter)),
                    Err(e) => replayed(list, after, limit as nat, filter_view(filter)) == Err::<
                        Seq<ChangeSetView>,
                        Error,
                    >(e),
                }
            },
        },
{
    let list: Vec<(u64, Vec<u8>)> = match root.child(&journal_bucket()) {
        Err(Error::BucketMissing) => Vec::new(),
        Err(e) => return Err(e),
        Ok(journal) => find_records(journal),
    };
    let ghost all = records_view(list@);
    let ghost want = filter_view(filter);
    let mut transactions: Vec<ChangeSet> = Vec::new();
    let mut i: usize = 0;
    proof {
        assert(tree::child_of(root@, names::journal_name()) is Err ==> all =~= Seq::<
            (u64, Seq<u8>),
        >::empty());
        assert(all.take(0) =~= Seq::<(u64, Seq<u8>)>::empty());
        assert(changes::sets_view(transactions@) =~= Seq::<ChangeSetView>::empty());
    }
    while i < list.len()
        invariant
            i <= list@.len(),
            all == records_view(list@),
            want == filter_view(filter),
            match tree::child_of(root@, names::journal_name()) {
                Err(e) => e == Error::BucketMissing && all == Seq::<(u64, Seq<u8>)>::empty(),
                Ok(journal) => all == records(cursor::data_in(journal)),
            },
            replayed(all.take(i as int), after, limit as nat, want) == Ok::<
                Seq<ChangeSetView>,
                Error,
            >(changes::sets_view(transactions@)),
        decreases list@.len() - i,
    {
        let ghost was = changes::sets_view(transactions@);
        proof {
            assert(all.take(i + 1).drop_last() =~= all.take(i as int));
            assert(all.take(i + 1).last() == (list@[i as int].0, list@[i as int].1@));
            assert(was.len() == transactions@.len());
        }
        let id: u64 = list[i].0;
        if id > after && transactions.len() != limit {
            match decode_change_set(id, &list[i].1) {
                Err(e) => {
                    proof {
                        lemma_replayed_stops(all, after, limit as nat, want, i + 1);
                    }
                    return Err(e);
                },
                Ok(set) => {
                    let told: ChangeSet = match filter {
                        None => set,
                        Some(f) => ChangeSet {
                            transaction_id: set.transaction_id,
                            changes: select(f, &set.changes),
                            truncated: set.truncated,
                        },
                    };
                    let ghost view = told@;
                    transactions.push(told);
                    assert(changes::sets_view(transactions@) =~= was.push(view));
                },
            }
        }
        i = i + 1;
    }
    assert(all.take(i as int) =~= all);
    let n: usize = list.len();
    let oldest: Option<u64> = if n > 0 {
        Some(list[0].0)
    } else {
        None
    };
    let newest: Option<u64> = if n > 0 {
        Some(list[n - 1].0)
    } else {
        None
    };
    let gap: Option<JournalGap> = match oldest {
        Some(id) => if after < u64::MAX && after + 1 < id {
            Some(JournalGap { requested_after: after, oldest_available: id })
        } else {
            None
        },
        None => None,
    };
    Ok(
        JournalReplay {
            transactions,
            gap,
            oldest_available: oldest,
            newest_available: newest,
        },
    )
}

} // verus!
