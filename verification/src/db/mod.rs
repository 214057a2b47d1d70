//! The database: buckets in buckets, kept as one sorted tree of records.

pub mod commit;
pub mod laws;
pub mod load;
pub mod load_laws;
pub mod path;
pub mod read;
pub mod staged;
pub mod state;
pub mod state_laws;
pub mod write;
