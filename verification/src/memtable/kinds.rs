//! The memtable the engine uses: either representation, chosen when it is created.
use vstd::prelude::*;

use crate::bound::KeyBound;
use crate::key::{InternalKey, SequenceNumber, ValueType};
use crate::memtable::btree::{self, opt_record_view, ValueRecord};
use crate::memtable::skiplist::SkipListMemTable;
use crate::memtable::{entries_view, first_visible, rows_view, spec_upsert, visible_rows, EntryView};

verus! {

/// Which representation a memtable uses.
#[derive(Debug, Clone, Copy, PartialEq, Eq, Structural)]
pub enum MemTableKind {
    BTree,
    SkipList,
}

impl Default for MemTableKind {
    fn default() -> (r: Self)
        ensures
            r == MemTableKind::BTree,
    {
        MemTableKind::BTree
    }
}

/// The size basis after recording `n` more key and value bytes: a vector memtable adds
/// them and the size of an internal key, wrapping at the word size; a skip list's arena
/// adds the bytes.
pub open spec fn grow_basis(kind: MemTableKind, basis: int, n: int) -> int {
    match kind {
        MemTableKind::BTree => (basis + n + vstd::layout::size_of::<InternalKey>()) % (usize::MAX + 1),
        MemTableKind::SkipList => basis + n,
    }
}

/// The size estimate of a memtable of `kind` from its basis and entry count: the basis
/// itself for a vector memtable; for a skip list the arena bytes plus the size of an
/// internal key per entry, wrapping at the word size.
pub open spec fn size_from_basis(kind: MemTableKind, basis: int, entries: int) -> int {
    match kind {
        MemTableKind::BTree => basis,
        MemTableKind::SkipList => (basis + entries * vstd::layout::size_of::<InternalKey>()) % (usize::MAX + 1),
    }
}

/// A memtable of either representation.
#[derive(Debug)]
pub enum MemTable {
    BTree(btree::MemTable),
    SkipList(Box<SkipListMemTable>),
}

impl MemTable {
    /// The entries in internal-key order.
    pub open spec fn entries_view(&self) -> Seq<EntryView> {
        match self {
            MemTable::BTree(t) => t.entries_view(),
            MemTable::SkipList(t) => t.entries_view(),
        }
    }

    pub open spec fn wf(&self) -> bool {
        match self {
            MemTable::BTree(t) => t.wf(),
            MemTable::SkipList(t) => t.wf(),
        }
    }

    pub open spec fn spec_kind(&self) -> MemTableKind {
        match self {
            MemTable::BTree(_) => MemTableKind::BTree,
            MemTable::SkipList(_) => MemTableKind::SkipList,
        }
    }

    /// The size estimate.
    pub open spec fn spec_approximate_size(&self) -> int {
        match self {
            MemTable::BTree(t) => t.spec_approximate_size() as int,
            MemTable::SkipList(t) => t.spec_approximate_size(),
        }
    }

    /// What the size estimate is counted from: the running byte count of a vector
    /// memtable, the arena bytes of a skip list.
    pub open spec fn size_basis(&self) -> int {
        match self {
            MemTable::BTree(t) => t.spec_approximate_size() as int,
            MemTable::SkipList(t) => t.arena_bytes() as int,
        }
    }

    /// The size estimate, from its basis and the number of entries.
    pub proof fn lemma_size_from_basis(&self)
        ensures
            self.spec_approximate_size() == size_from_basis(self.spec_kind(), self.size_basis(), self.entries_view().len() as int),
    {
    }

    /// Whether `n` more bytes can be recorded: the skip list's arena counts its bytes in
    /// a word.
    pub open spec fn room_for(&self, n: nat) -> bool {
        match self {
            MemTable::BTree(_) => true,
            MemTable::SkipList(t) => t.arena_bytes() + n <= usize::MAX,
        }
    }

    /// An empty memtable of the given kind.
    pub fn new(kind: MemTableKind) -> (t: Self)
        ensures
            t.wf(),
            t.entries_view() == Seq::<EntryView>::empty(),
            t.spec_kind() == kind,
            t.spec_approximate_size() == 0,
            t.size_basis() == 0,
            forall|n: nat| n <= usize::MAX ==> #[trigger] t.room_for(n),
    {
        match kind {
            MemTableKind::BTree => MemTable::BTree(btree::MemTable::new()),
            MemTableKind::SkipList => {
                let t = SkipListMemTable::new();
                assert((0nat as int) % (usize::MAX as int + 1) == 0);
                MemTable::SkipList(Box::new(t))
            },
        }
    }

    pub fn kind(&self) -> (r: MemTableKind)
        ensures
            r == self.spec_kind(),
    {
        match self {
            MemTable::BTree(_) => MemTableKind::BTree,
            MemTable::SkipList(_) => MemTableKind::SkipList,
        }
    }

    /// Records a put of `value` under `key` at sequence `seq`.
    pub fn put(&mut self, seq: SequenceNumber, key: Vec<u8>, value: Vec<u8>)
        requires
            old(self).wf(),
            old(self).room_for(key@.len() + value@.len()),
        ensures
            final(self).wf(),
            final(self).spec_kind() == old(self).spec_kind(),
            final(self).entries_view() == spec_upsert(old(self).entries_view(), ((key@, seq, ValueType::Put), Some(value@))),
            forall|n: nat| old(self).room_for(n + key@.len() + value@.len()) ==> #[trigger] final(self).room_for(n),
            final(self).size_basis() == grow_basis(old(self).spec_kind(), old(self).size_basis(), (key@.len() + value@.len()) as int),
    {
        match self {
            MemTable::BTree(t) => t.put(seq, key, value),
            MemTable::SkipList(t) => t.put(seq, key, value),
        }
    }

    /// Records a tombstone for `key` at sequence `seq`.
    pub fn delete(&mut self, seq: SequenceNumber, key: Vec<u8>)
        requires
            old(self).wf(),
            old(self).room_for(key@.len()),
        ensures
            final(self).wf(),
            final(self).spec_kind() == old(self).spec_kind(),
            final(self).entries_view() == spec_upsert(old(self).entries_view(), ((key@, seq, ValueType::Delete), None)),
            forall|n: nat| old(self).room_for(n + key@.len()) ==> #[trigger] final(self).room_for(n),
            final(self).size_basis() == grow_basis(old(self).spec_kind(), old(self).size_basis(), key@.len() as int),
    {
        match self {
            MemTable::BTree(t) => t.delete(seq, key),
            MemTable::SkipList(t) => t.delete(seq, key),
        }
    }

    /// The record of the newest version of `key` visible at `read_seq`.
    pub fn get(&self, key: &[u8], read_seq: SequenceNumber) -> (r: Option<ValueRecord>)
        requires
            self.wf(),
        ensures
            opt_record_view(r) == first_visible(self.entries_view(), key@, read_seq),
    {
        match self {
            MemTable::BTree(t) => t.get(key, read_seq),
            MemTable::SkipList(t) => t.get(key, read_seq),
        }
    }

    /// The newest visible value of each user key in range, in key order.
    pub fn scan(&self, lower: &KeyBound, upper: &KeyBound, read_seq: SequenceNumber) -> (r: Vec<(Vec<u8>, Vec<u8>)>)
        requires
            self.wf(),
        ensures
            rows_view(r@) == visible_rows(self.entries_view(), lower@, upper@, read_seq),
    {
        match self {
            MemTable::BTree(t) => t.scan(lower, upper, read_seq),
            MemTable::SkipList(t) => t.scan(lower, upper, read_seq),
        }
    }

    pub fn approximate_size(&self) -> (r: usize)
        ensures
            r == self.spec_approximate_size(),
    {
        match self {
            MemTable::BTree(t) => t.approximate_size(),
            MemTable::SkipList(t) => t.approximate_size(),
        }
    }

    /// Whether `n` more bytes can be recorded.
    pub fn has_room_for(&self, n: usize) -> (r: bool)
        ensures
            r == self.room_for(n as nat),
    {
        match self {
            MemTable::BTree(_) => true,
            MemTable::SkipList(t) => t.has_room_for(n),
        }
    }

    pub fn is_empty(&self) -> (r: bool)
        ensures
            r == (self.entries_view().len() == 0),
    {
        match self {
            MemTable::BTree(t) => t.is_empty(),
            MemTable::SkipList(t) => t.is_empty(),
        }
    }

    /// A copy of the entries in internal-key order.
    pub fn entries(&self) -> (r: Vec<(InternalKey, ValueRecord)>)
        requires
            self.wf(),
        ensures
            entries_view(r@) == self.entries_view(),
    {
        match self {
            MemTable::BTree(t) => t.entries(),
            MemTable::SkipList(t) => t.entries(),
        }
    }
}

impl Default for MemTable {
    fn default() -> (t: Self)
        ensures
            t.wf(),
            t.entries_view() == Seq::<EntryView>::empty(),
            t.spec_kind() == MemTableKind::BTree,
    {
        MemTable::new(MemTableKind::BTree)
    }
}

} // verus!
