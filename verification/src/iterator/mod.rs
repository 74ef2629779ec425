//! Iterators over internal-key entries, their merging, and the user-facing iterator
//! that turns versions into visible rows.
use vstd::prelude::*;

use crate::error::Result;
use crate::key::{InternalKey, InternalKeyView};
use crate::memtable::{EntryView, ValueRecord};

pub mod concat_iterator;
pub mod db_iterator;
pub mod merge_iterator;
pub mod storage_iterator;
pub mod two_merge_iterator;

pub use concat_iterator::ConcatIterator;
pub use db_iterator::DBIterator;
pub use merge_iterator::MergeIterator;
pub use two_merge_iterator::TwoMergeIterator;
pub use storage_iterator::{EntryIterator, StorageIterator};

verus! {
} // verus!
