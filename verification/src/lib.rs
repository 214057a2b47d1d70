//! An embedded, transactional key/value store.

pub mod api;
pub mod application;
pub mod assoc;
pub mod bytemap;
pub mod bytes;
pub mod cli;
pub mod cli_laws;
pub mod cursor;
pub mod data;
pub mod db;
pub mod error;
pub mod format;
pub mod format_laws;
pub mod hash;
pub mod page;
pub mod storage;
pub mod tree;
pub mod tree_laws;
pub mod typed;
