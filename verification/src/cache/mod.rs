//! Caches of decoded blocks and opened tables.
pub mod block_cache;
pub mod table_cache;

pub use block_cache::{BlockCache, CacheStats};
pub use table_cache::TableCache;
