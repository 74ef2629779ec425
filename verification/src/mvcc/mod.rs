//! Multi-version concurrency: snapshot registration and transactions.
pub mod engine_reads;
pub mod snapshot;
pub mod transaction;
pub mod watermark;
