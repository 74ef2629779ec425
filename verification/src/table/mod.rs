pub mod format;
pub mod block_builder;
pub mod block;
pub mod block_iterator;
pub mod properties;
pub mod filter;
pub mod builder;
pub mod reader;
pub mod storage_iter;
pub mod roundtrip;
