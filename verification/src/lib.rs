pub mod batch;
pub mod bytes;
pub mod util;
pub mod error;
pub mod key;

pub use batch::{BatchRecord, WriteBatch};
pub use error::{Error, Result};
pub use options::{ReadOptions, WalSyncMode, WriteOptions};
pub use snapshot::Snapshot;
pub use transaction::{Transaction, TransactionOptions};
pub mod bound;
pub mod memtable;
pub mod iterator;
pub mod table;
pub mod mvcc;
pub mod snapshot;
pub mod options;
pub mod transaction;
pub mod cache;
pub mod metrics;
pub mod compact;
pub mod version;
pub mod env;
pub mod db_state;
pub mod write_path;
pub mod write_group;
pub mod recovery;
