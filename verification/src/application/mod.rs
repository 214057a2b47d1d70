//! Typed collections.

pub mod batch;
pub mod batch_laws;
pub mod collection;
pub mod definition;
pub mod iter;
pub mod laws;
pub mod open;
pub mod open_laws;
pub mod scan_laws;
pub mod update;
pub mod write_laws;
pub mod writing;
