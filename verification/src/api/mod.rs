//! Buckets, transactions and what is built on them.

pub mod atomic;
pub mod bucket;
pub mod changes;
pub mod copy;
pub mod cursor;
pub mod cursor_laws;
pub mod journal;
pub mod journal_laws;
pub mod map;
pub mod map_laws;
pub mod merge;
pub mod merge_deep_laws;
pub mod merge_laws;
pub mod merge_report_laws;
pub mod names;
pub mod scoped;
pub mod sweep;
pub mod sweep_laws;
pub mod tree;
pub mod ttl;
pub mod ttl_laws;
pub mod tx;
