//! How readers in other processes are seen: each holds a lock on a byte range
//! far beyond the end of the file, whose place and length tell its
//! transaction.

use crate::error::{Error, Fault};
use vstd::prelude::*;

verus! {

/// Where the lock ranges begin; no file is that long.
pub const LOCK_BASE: u64 = 1_152_921_504_606_846_976;

/// The largest file that does not reach into the lock ranges.
pub const MAX_DATA_FILE_BYTES: u64 = LOCK_BASE;

/// The byte that a writer locks.
pub const GATE_OFFSET: u64 = LOCK_BASE;

/// The byte that the reader in the first slot locks.
pub const TOKEN_BASE: u64 = 1_152_921_504_606_846_984;

/// How many readers there can be.
pub const MAX_READER_SLOTS: u64 = 65_536;

/// Where the first slot's block of bytes begins.
pub const PAYLOAD_BASE: u64 = 1_152_921_504_607_895_552;

/// How many bytes a slot's block has.
pub const PAYLOAD_STRIDE: u64 = 8_589_934_592;

/// The largest number of half the width.
pub const LOW_MASK: u64 = 4_294_967_295;

/// A locked range of bytes.
#[derive(Clone, Copy, Debug, PartialEq, Eq, Structural)]
pub struct LockRange {
    pub start: u64,
    pub length: u64,
}

/// Where the block of a slot begins.
pub open spec fn block_of_slot(slot: u64) -> int {
    PAYLOAD_BASE + slot * PAYLOAD_STRIDE
}

/// The byte that the reader in a slot locks.
pub fn token_offset(slot: u64) -> (r: u64)
    requires
        slot < MAX_READER_SLOTS,
    ensures
        r == TOKEN_BASE + slot,
{
    TOKEN_BASE + slot
}

/// The slot that a new reader tries after `attempt` others were taken: they are
/// gone through once, from some first one on.
pub fn slot_to_try(first: u64, attempt: u64) -> (r: Option<u64>)
    ensures
        r == (if attempt >= MAX_READER_SLOTS {
            None
        } else {
            Some(((first + attempt) % MAX_READER_SLOTS as int) as u64)
        }),
{
    if attempt >= MAX_READER_SLOTS {
        return None;
    }
    Some((first % MAX_READER_SLOTS + attempt) % MAX_READER_SLOTS)
}

/// Where the block of a slot begins.
pub fn payload_block(slot: u64) -> (r: u64)
    requires
        slot < MAX_READER_SLOTS,
    ensures
        r == block_of_slot(slot),
{
    PAYLOAD_BASE + slot * PAYLOAD_STRIDE
}

/// The range that tells transaction `tx_id` from the block at `block`: it
/// begins as far into the block as the number's lower half says, and is longer
/// by one than its upper half.
pub open spec fn range_of(block: int, tx_id: u64) -> (int, int) {
    (block + tx_id % 4_294_967_296, tx_id / 4_294_967_296 + 1)
}

/// The range by which a reader in `slot` tells its transaction.
pub fn encode_tx_id(slot: u64, tx_id: u64) -> (r: (u64, u64))
    requires
        slot < MAX_READER_SLOTS,
    ensures
        (r.0 as int, r.1 as int) == range_of(block_of_slot(slot), tx_id),
{
    let low: u64 = tx_id % 4_294_967_296;
    let high: u64 = tx_id / 4_294_967_296 + 1;
    (payload_block(slot) + low, high)
}

/// The transaction that a locked range tells.
pub open spec fn told(block: u64, lock: LockRange) -> Result<u64, Error> {
    if !(block <= lock.start && lock.start - block <= LOW_MASK) {
        Err(Error::InvalidDB(Fault::Text("invalid reader transaction lock offset")))
    } else if !(1 <= lock.length && lock.length - 1 <= LOW_MASK) {
        Err(Error::InvalidDB(Fault::Text("invalid reader transaction lock length")))
    } else {
        Ok(((lock.length - 1) * 4_294_967_296 + (lock.start - block)) as u64)
    }
}

/// Reads the transaction that a locked range tells.
pub fn decode_tx_id(block: u64, lock: LockRange) -> (r: Result<u64, Error>)
    ensures
        r == told(block, lock),
{
    if lock.start < block || lock.start - block > LOW_MASK {
        return Err(Error::InvalidDB(Fault::Text("invalid reader transaction lock offset")));
    }
    if lock.length < 1 || lock.length - 1 > LOW_MASK {
        return Err(Error::InvalidDB(Fault::Text("invalid reader transaction lock length")));
    }
    Ok((lock.length - 1) * 4_294_967_296 + (lock.start - block))
}

/// A transaction is read back from the range that tells it, and the range
/// stays within its slot's block.
pub proof fn law_transaction_ids_round_trip(slot: u64, tx_id: u64, lock: LockRange)
    requires
        slot < MAX_READER_SLOTS,
        (lock.start as int, lock.length as int) == range_of(block_of_slot(slot), tx_id),
    ensures
        told(block_of_slot(slot) as u64, lock) == Ok::<u64, Error>(tx_id),
        lock.start + lock.length <= block_of_slot(slot) + PAYLOAD_STRIDE,
{
}

/// The blocks of two slots have no byte in common, and lie behind every token.
pub proof fn law_blocks_are_apart(a: u64, b: u64)
    requires
        a < b < MAX_READER_SLOTS,
    ensures
        block_of_slot(a) + PAYLOAD_STRIDE <= block_of_slot(b),
        TOKEN_BASE + MAX_READER_SLOTS <= block_of_slot(a),
        block_of_slot(b) + PAYLOAD_STRIDE <= i64::MAX,
{
}

/// The slots that a search for readers still has to look at, and those it has
/// found.
#[derive(Debug)]
pub struct TokenSearch {
    ranges: Vec<(u64, u64)>,
    slots: Vec<u64>,
}

/// What a search asks for next.
#[derive(Clone, Copy, Debug, PartialEq, Eq, Structural)]
pub enum TokenQuery {
    /// Whether any byte of this range is locked.
    Probe { start: u64, length: u64 },
    /// Nothing more.
    Done,
}

/// Ranges without those at the end that hold nothing.
pub open spec fn trimmed(ranges: Seq<(u64, u64)>) -> Seq<(u64, u64)>
    decreases ranges.len(),
{
    if ranges.len() > 0 && ranges.last().0 >= ranges.last().1 {
        trimmed(ranges.drop_last())
    } else {
        ranges
    }
}

/// What a search is left with after an answer about its last range.
pub open spec fn narrowed(
    ranges: Seq<(u64, u64)>,
    found: Seq<u64>,
    lock: Option<LockRange>,
) -> Result<(Seq<(u64, u64)>, Seq<u64>), Error> {
    let rest = ranges.drop_last();
    let (start, end) = ranges.last();
    match lock {
        None => Ok((trimmed(rest), found)),
        Some(lock) => if lock.start + lock.length > u64::MAX {
            Err(Error::InvalidDB(Fault::Text("reader coordination lock range overflowed")))
        } else if lock.start < TOKEN_BASE || lock.start + lock.length > TOKEN_BASE
            + MAX_READER_SLOTS {
            Err(Error::InvalidDB(Fault::Text("reader coordination lock escaped the token region")))
        } else {
            Ok(
                (
                    trimmed(
                        rest.push((start, lock.start)).push(
                            ((lock.start + lock.length) as u64, end),
                        ),
                    ),
                    found.push((lock.start - TOKEN_BASE) as u64),
                ),
            )
        },
    }
}

impl TokenSearch {
    /// The ranges that are still to be looked at; the last is asked about
    /// first.
    pub closed spec fn ranges(&self) -> Seq<(u64, u64)> {
        self.ranges@
    }

    /// The slots found so far.
    pub closed spec fn found(&self) -> Seq<u64> {
        self.slots@
    }

    /// Whether there is something in the range asked about.
    pub open spec fn wf(&self) -> bool {
        self.ranges().len() > 0 ==> self.ranges().last().0 < self.ranges().last().1
    }

    /// A search of every token.
    pub fn new() -> (r: Self)
        ensures
            r.wf(),
            r.found() == Seq::<u64>::empty(),
            r.ranges() == seq![(TOKEN_BASE, (TOKEN_BASE + MAX_READER_SLOTS) as u64)],
    {
        let mut ranges: Vec<(u64, u64)> = Vec::new();
        ranges.push((TOKEN_BASE, TOKEN_BASE + MAX_READER_SLOTS));
        let r: TokenSearch = TokenSearch { ranges, slots: Vec::new() };
        assert(r.ranges@ =~= seq![(TOKEN_BASE, (TOKEN_BASE + MAX_READER_SLOTS) as u64)]);
        assert(r.slots@ =~= Seq::<u64>::empty());
        r
    }

    /// What to ask the operating system next.
    pub fn query(&self) -> (r: TokenQuery)
        requires
            self.wf(),
        ensures
            r == (if self.ranges().len() == 0 {
                TokenQuery::Done
            } else {
                TokenQuery::Probe {
                    start: self.ranges().last().0,
                    length: (self.ranges().last().1 - self.ranges().last().0) as u64,
                }
            }),
    {
        let n: usize = self.ranges.len();
        if n == 0 {
            TokenQuery::Done
        } else {
            let range: (u64, u64) = self.ranges[n - 1];
            TokenQuery::Probe { start: range.0, length: range.1 - range.0 }
        }
    }

    /// Drops empty ranges from the end.
    fn settle(&mut self)
        ensures
            final(self).wf(),
            final(self).slots@ == old(self).slots@,
            final(self).ranges@ == trimmed(old(self).ranges@),
    {
        let ghost was = trimmed(self.ranges@);
        let ghost found = self.slots@;
        while self.ranges.len() > 0 && self.ranges[self.ranges.len() - 1].0 >= self.ranges[
            self.ranges.len() - 1
        ].1
            invariant
                found == self.slots@,
                was == trimmed(self.ranges@),
            decreases self.ranges@.len(),
        {
            let ghost before = self.ranges@;
            let _empty: Option<(u64, u64)> = self.ranges.pop();
            assert(self.ranges@ =~= before.drop_last());
        }
    }

    /// Takes the answer: the first lock in the range asked about, if any.
    ///
    /// A lock must lie among the tokens. Its first byte tells a slot; what is
    /// asked about next is what the lock does not cover.
    pub fn answer(&mut self, lock: Option<LockRange>) -> (r: Result<(), Error>)
        requires
            old(self).ranges().len() > 0,
        ensures
            match narrowed(old(self).ranges(), old(self).found(), lock) {
                Ok((ranges, found)) => r is Ok && final(self).wf() && final(self).ranges()
                    == ranges && final(self).found() == found,
                Err(e) => r == Err::<(), Error>(e),
            },
    {
        let ghost was = self.ranges@;
        let (start, end): (u64, u64) = match self.ranges.pop() {
            Some(range) => range,
            None => return Ok(()),
        };
        assert(self.ranges@ =~= was.drop_last());
        match lock {
            None => {},
            Some(lock) => {
                let lock_end: u64 = match lock.start.checked_add(lock.length) {
                    Some(lock_end) => lock_end,
                    None => return Err(
                        Error::InvalidDB(Fault::Text("reader coordination lock range overflowed")),
                    ),
                };
                if lock.start < TOKEN_BASE || lock_end > TOKEN_BASE + MAX_READER_SLOTS {
                    return Err(
                        Error::InvalidDB(
                            Fault::Text("reader coordination lock escaped the token region"),
                        ),
                    );
                }
                self.slots.push(lock.start - TOKEN_BASE);
                self.ranges.push((start, lock.start));
                self.ranges.push((lock_end, end));
            },
        }
        self.settle();
        Ok(())
    }

    /// The slots found.
    pub fn slots(&self) -> (r: &Vec<u64>)
        ensures
            r@ == self.found(),
    {
        &self.slots
    }
}

/// Whether a byte lies in one of the ranges.
pub open spec fn pending(ranges: Seq<(u64, u64)>, byte: int) -> bool {
    exists|i: int| 0 <= i < ranges.len() && (#[trigger] ranges[i]).0 <= byte < ranges[i].1
}

proof fn lemma_trimmed(ranges: Seq<(u64, u64)>, byte: int)
    requires
        pending(ranges, byte),
    ensures
        pending(trimmed(ranges), byte),
    decreases ranges.len(),
{
    if ranges.len() > 0 && ranges.last().0 >= ranges.last().1 {
        let i = choose|i: int|
            0 <= i < ranges.len() && (#[trigger] ranges[i]).0 <= byte < ranges[i].1;
        assert(ranges.drop_last()[i] == ranges[i]);
        lemma_trimmed(ranges.drop_last(), byte);
    }
}

/// No token is passed over: one that is still to be looked at stays so, unless
/// it lies in a range that was found free, or under the lock that was found.
pub proof fn law_search_passes_over_nothing(
    ranges: Seq<(u64, u64)>,
    found: Seq<u64>,
    lock: Option<LockRange>,
    byte: int,
)
    requires
        ranges.len() > 0,
        narrowed(ranges, found, lock) is Ok,
        pending(ranges, byte),
    ensures
        match lock {
            None => ranges.last().0 <= byte < ranges.last().1,
            Some(lock) => lock.start <= byte < lock.start + lock.length,
        } || pending(narrowed(ranges, found, lock)->Ok_0.0, byte),
{
    let rest = ranges.drop_last();
    let (start, end) = ranges.last();
    let i = choose|i: int|
        0 <= i < ranges.len() && (#[trigger] ranges[i]).0 <= byte < ranges[i].1;
    match lock {
        None => {
            if i < rest.len() {
                assert(rest[i] == ranges[i]);
                lemma_trimmed(rest, byte);
            }
        },
        Some(lock) => {
            let now = rest.push((start, lock.start)).push(
                ((lock.start + lock.length) as u64, end),
            );
            if i < rest.len() {
                assert(now[i] == ranges[i]);
                lemma_trimmed(now, byte);
            } else if byte < lock.start {
                assert(now[rest.len() as int] == (start, lock.start));
                lemma_trimmed(now, byte);
            } else if byte >= lock.start + lock.length {
                assert(now[now.len() - 1] == ((lock.start + lock.length) as u64, end));
                lemma_trimmed(now, byte);
            }
        },
    }
}

/// Readers counted, with the oldest of their transactions.
pub open spec fn tally(ids: Seq<u64>) -> (nat, Option<u64>)
    decreases ids.len(),
{
    if ids.len() == 0 {
        (0, None)
    } else {
        let (count, oldest) = tally(ids.drop_last());
        let id = ids.last();
        (
            count + 1,
            match oldest {
                Some(o) => if o < id {
                    Some(o)
                } else {
                    Some(id)
                },
                None => Some(id),
            },
        )
    }
}

/// Counts a further reader, whose range is `lock`, from the block at `block`.
pub fn count_reader(
    count: u64,
    oldest: Option<u64>,
    block: u64,
    lock: Option<LockRange>,
) -> (r: Result<(u64, Option<u64>), Error>)
    requires
        count < u64::MAX,
    ensures
        match lock {
            None => r == Ok::<(u64, Option<u64>), Error>((count, oldest)),
            Some(lock) => match told(block, lock) {
                Err(e) => r == Err::<(u64, Option<u64>), Error>(e),
                Ok(id) => r is Ok && forall|ids: Seq<u64>|
                    (count as nat, oldest) == #[trigger] tally(ids) ==> (
                        r->Ok_0.0 as nat,
                        r->Ok_0.1,
                    ) == tally(ids.push(id)),
            },
        },
{
    match lock {
        None => Ok((count, oldest)),
        Some(lock) => match decode_tx_id(block, lock) {
            Err(e) => Err(e),
            Ok(id) => {
                let least: u64 = match oldest {
                    Some(current) => if current < id {
                        current
                    } else {
                        id
                    },
                    None => id,
                };
                proof {
                    assert forall|ids: Seq<u64>|
                        (count as nat, oldest) == #[trigger] tally(ids) implies (
                        (count + 1) as nat,
                        Some(least),
                    ) == tally(ids.push(id)) by {
                        assert(ids.push(id).drop_last() =~= ids);
                    }
                }
                Ok((count + 1, Some(least)))
            },
        },
    }
}

/// A tally tells how many readers there are, and its transaction is one of
/// theirs that none of the others is older than.
pub proof fn law_tally_finds_oldest(ids: Seq<u64>)
    ensures
        tally(ids).0 == ids.len(),
        match tally(ids).1 {
            Some(oldest) => ids.contains(oldest) && (forall|id: u64| #[trigger]
                ids.contains(id) ==> oldest <= id),
            None => ids.len() == 0,
        },
    decreases ids.len(),
{
    if ids.len() > 0 {
        let front = ids.drop_last();
        law_tally_finds_oldest(front);
        assert(ids =~= front.push(ids.last()));
        assert(ids[ids.len() - 1] == ids.last());
        assert forall|id: u64| #[trigger] ids.contains(id) implies tally(ids).1->Some_0 <= id by {
            let i = choose|i: int| 0 <= i < ids.len() && ids[i] == id;
            if i < front.len() {
                assert(front[i] == id);
                assert(front.contains(id));
            }
        }
        if tally(front).1 is Some {
            let o = tally(front).1->Some_0;
            let i = choose|i: int| 0 <= i < front.len() && front[i] == o;
            assert(ids[i] == o);
        }
    }
}

} // verus!
