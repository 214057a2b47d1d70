//! The paged file format, with checksums, and the decisions around its files.

pub mod check;
pub mod check_laws;
pub mod commit;
pub mod commit_laws;
pub mod coordination;
pub mod cursor;
pub mod cursor_laws;
pub mod grow;
pub mod inspect;
pub mod inspect_laws;
pub mod meta;
pub mod node;
pub mod options;
pub mod pack;
pub mod pack_laws;
pub mod page;
pub mod page_laws;
pub mod readers;
pub mod rescue_laws;
pub mod salvage;
pub mod salvage_laws;
pub mod snapshot_laws;
pub mod stats;
pub mod verification;
pub mod verification_laws;
pub mod writer;
