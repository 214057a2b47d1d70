# inspace

An embedded key-value store that keeps nested buckets in one memory-mapped file.
The library under `src/` holds the store's logic: every item of it is verified by
Verus against the contract written above it. `app/` is the ordinary Rust around it:
opening and mapping files, file locks, the wall clock and the command line.

- `bytes`, `hash`, `assoc`, `bytemap`, `data`, `cursor`, `page`, `tree`, `format`, `db`:
  the log-structured store, from its byte format to transactions and what they leave
  behind on disk.
- `storage`: the copy-on-write page file: pages, meta blocks, nodes, the free list, commits,
  the consistency check, salvage and the planning of opens and growth.
- `api`: buckets, cursors, TTLs, change sets, journals, merges and transactions over the
  in-memory tree of a snapshot.
- `typed`, `application`: codecs, typed buckets and collections.
- `cli`: the command line's grammar and reports.

Files named `laws.rs` or ending in `_laws.rs` hold public proof functions: what is true of
several operations together. Among them: wherever a commit is interrupted, its file has the
snapshot before it or the complete new one (`db::laws::law_commit_is_all_or_nothing`,
`storage::snapshot_laws::law_commit_is_all_or_nothing`), and a snapshot that a reader has open
is read unchanged after every later commit (`storage::snapshot_laws::law_reader_keeps_its_snapshot`).
The last two speak of files that this library made: `law_new_file_is_settled` says where they begin.

Four small functions rest on code outside the library and carry contracts that are not
proved: a SHA3-256 digest, the machine's page size, the quoting of text and the reading of
UTF-8. Each says so in its doc comment.
