//! A partitioned shuffler: record batches tagged with an integer partition
//! key are buffered per key, spilled as contiguous "groups" into a single
//! append-only backing store once a key's buffered row count reaches a
//! configured threshold, and later replayed per key by filtering the store
//! to exactly the groups recorded for that key.

pub mod schema;
pub mod batch;
pub mod shuffler;
pub mod laws;
