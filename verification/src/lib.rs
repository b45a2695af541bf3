//! Line-oriented record ingestion: a comma-separated record parser and an
//! id-keyed record store with batch loading, sorted export and fresh-id
//! allocation, together with a few small verified utilities.

pub mod inventory;
pub mod parser;
pub mod staff;
pub mod store;
pub mod tickets;
pub mod text;
