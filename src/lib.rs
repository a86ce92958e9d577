//! Bounded-memory ordering of version-control change records: record framing,
//! spooling, chunked sorting and k-way merging, with their contracts.
pub mod record;
pub mod codec;
pub mod spool;
pub mod sort;
pub mod external;
pub mod ingest;
pub mod config;
pub mod validation;
pub mod laws;
pub mod changes;
