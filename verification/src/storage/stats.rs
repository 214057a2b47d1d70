//! A database's statistics.

use crate::storage::meta::Meta;
use vstd::prelude::*;

verus! {

/// A point-in-time snapshot of database storage and transaction state.
#[derive(Clone, Debug, Default, PartialEq, Eq)]
pub struct Stats {
    pub file_bytes: u64,
    pub page_size: u64,
    pub allocated_pages: u64,
    pub free_pages: u64,
    pub pending_pages: u64,
    pub reader_pinned_pages: u64,
    pub current_tx_id: u64,
    pub active_readers: u64,
    pub oldest_reader_tx_id: Option<u64>,
    pub committed_transactions: u64,
    pub bytes_written: u64,
}

/// What a handle has counted since it was opened.
#[derive(Clone, Copy, Debug)]
pub struct Counters {
    pub committed_transactions: u64,
    pub bytes_written: u64,
}

/// Puts a database's statistics together. Pages that wait to be reused count
/// as pinned while there are readers.
pub fn collect(
    meta: &Meta,
    file_bytes: u64,
    page_size: u64,
    free_pages: u64,
    pending_pages: u64,
    readers: (u64, Option<u64>),
    counters: Counters,
) -> (r: Stats)
    ensures
        r.file_bytes == file_bytes,
        r.page_size == page_size,
        r.allocated_pages == meta.num_pages,
        r.free_pages == free_pages,
        r.pending_pages == pending_pages,
        r.reader_pinned_pages == (if readers.0 == 0 {
            0
        } else {
            pending_pages
        }),
        r.current_tx_id == meta.tx_id,
        r.active_readers == readers.0,
        r.oldest_reader_tx_id == readers.1,
        r.committed_transactions == counters.committed_transactions,
        r.bytes_written == counters.bytes_written,
{
    Stats {
        file_bytes,
        page_size,
        allocated_pages: meta.num_pages,
        free_pages,
        pending_pages,
        reader_pinned_pages: if readers.0 == 0 {
            0
        } else {
            pending_pages
        },
        current_tx_id: meta.tx_id,
        active_readers: readers.0,
        oldest_reader_tx_id: readers.1,
        committed_transactions: counters.committed_transactions,
        bytes_written: counters.bytes_written,
    }
}

} // verus!
