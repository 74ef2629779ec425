//! The engine's in-memory state and the decisions made on it: applying write batches,
//! freezing and flushing memtables, point reads across memtables and tables, and the
//! conflict checks of optimistic transactions. Logging, file handling and locking are
//! left to the caller, which performs them between these steps.
use vstd::prelude::*;
use vstd::string::StringExecFns;

use std::sync::Arc;

use crate::batch::{records_view, BatchRecord, RecordView, WriteBatch};
use crate::bound::{in_range, within_bounds, BoundView, KeyBound};
use crate::key::{bytes_equal, bytes_le, InternalKey, SequenceNumber, ValueType};
use crate::iterator::db_iterator::DBIterator;
use crate::iterator::merge_iterator::{children_remaining, merged, MergeIterator};
use crate::iterator::storage_iterator::{key_sorted, keys_determine_records, lemma_key_sorted, sorted_nonstrict, EntryIterator, StorageIterator};
use crate::memtable::{entries_view, first_visible, rows_view, visible_rows, sorted_entries, spec_upsert, EntryView, MemTable, MemTableKind};
use crate::memtable::kinds::grow_basis;
use crate::cache::block_cache::BlockCache;
use crate::error::{Error, Result};
use crate::options::ReadOptions;
use crate::snapshot::Snapshot;
use crate::memtable::btree::ValueRecord;
use crate::metrics::{wrap_add, Metrics, MetricsSnapshot};
use crate::util::bloom::spec_may_contain;
use crate::table::reader::{cache_consistent, offsets_name_one_block, spec_table_entries_from, SSTableReader};
use crate::version::FileMeta;
use crate::write_path::{batch_key_set, batch_write_keys, strictly_sorted_keys};

verus! {

/// A table the engine reads: its description and its reader.
pub type TableRef = (FileMeta, Arc<SSTableReader>);

/// Where a memtable taken for flushing came from.
#[derive(Debug, Clone, Copy, PartialEq, Eq, Structural)]
pub enum FlushSource {
    Mutable,
    ImmutableOldest,
}

/// The mutable memtable, the frozen ones (oldest first), the level-0 tables (newest
/// first), the tables of each level, the last sequence number used, and whether the
/// engine is closed.
#[derive(Debug)]
pub struct DbState {
    pub mutable: MemTable,
    pub immutables: Vec<MemTable>,
    pub l0_tables: Vec<TableRef>,
    pub level_tables: Vec<Vec<TableRef>>,
    pub last_sequence: SequenceNumber,
    pub closed: bool,
}

/// The memtable entry a batch record becomes at sequence `seq`.
pub open spec fn record_entry(r: RecordView, seq: u64) -> EntryView {
    ((r.0, seq, if r.1 is Some { ValueType::Put } else { ValueType::Delete }), r.1)
}

/// `s` after applying `records` at sequences `start`, `start + 1`, ...
pub open spec fn apply_records(s: Seq<EntryView>, records: Seq<RecordView>, start: u64) -> Seq<EntryView>
    decreases records.len(),
{
    if records.len() == 0 {
        s
    } else {
        spec_upsert(
            apply_records(s, records.drop_last(), start),
            record_entry(records.last(), (start + records.len() - 1) as u64),
        )
    }
}

/// The size basis of a memtable of `kind` whose basis was `basis` once `records` are
/// recorded in it.
pub open spec fn records_basis(kind: MemTableKind, basis: int, records: Seq<RecordView>) -> int
    decreases records.len(),
{
    if records.len() == 0 {
        basis
    } else {
        grow_basis(kind, records_basis(kind, basis, records.drop_last()), (records.last().0.len() + match records.last().1 {
            Some(v) => v.len(),
            None => 0,
        }) as int)
    }
}

/// The bytes of the keys and values of `records`.
pub open spec fn records_bytes(records: Seq<RecordView>) -> nat
    decreases records.len(),
{
    if records.len() == 0 {
        0
    } else {
        records_bytes(records.drop_last()) + records.last().0.len() + match records.last().1 {
            Some(v) => v.len(),
            None => 0,
        }
    }
}

/// All memtables, newest first: the mutable one, then the frozen ones from newest to
/// oldest.
pub open spec fn memtables_newest_first(mutable: Seq<EntryView>, immutables: Seq<Seq<EntryView>>) -> Seq<Seq<EntryView>> {
    seq![mutable] + immutables.reverse()
}

impl DbState {
    /// The entries of each frozen memtable, oldest first.
    pub open spec fn immutables_view(&self) -> Seq<Seq<EntryView>> {
        self.immutables@.map_values(|m: MemTable| m.entries_view())
    }

    /// Every memtable is well formed.
    pub open spec fn wf(&self) -> bool {
        &&& self.mutable.wf()
        &&& forall|i: int| 0 <= i < self.immutables@.len() ==> (#[trigger] self.immutables@[i]).wf()
    }

    /// A fresh state: empty memtables, the given tables, not closed.
    pub fn new(kind: MemTableKind, l0_tables: Vec<TableRef>, level_tables: Vec<Vec<TableRef>>, last_sequence: SequenceNumber) -> (s: Self)
        ensures
            s.wf(),
            s.mutable.entries_view() == Seq::<EntryView>::empty(),
            s.mutable.spec_kind() == kind,
            forall|n: nat| n <= usize::MAX ==> #[trigger] s.mutable.room_for(n),
            s.immutables@.len() == 0,
            s.l0_tables@ == l0_tables@,
            s.level_tables@ == level_tables@,
            s.last_sequence == last_sequence,
            !s.closed,
    {
        DbState { mutable: MemTable::new(kind), immutables: Vec::new(), l0_tables, level_tables, last_sequence, closed: false }
    }

    /// A read view at the last sequence number used: reads through it see every write
    /// applied so far and none applied later.
    pub fn snapshot(&self) -> (s: Snapshot)
        ensures
            s.spec_read_seq() == self.last_sequence,
    {
        Snapshot::new(self.last_sequence)
    }
}

/// Applies `batch` to the mutable memtable, its records taking sequence numbers
/// `start_sequence`, `start_sequence + 1`, ..., and raises the last sequence to the last
/// of them.
pub fn apply_batch(state: &mut DbState, start_sequence: SequenceNumber, batch: &WriteBatch)
    requires
        old(state).wf(),
        start_sequence + batch@.len() <= u64::MAX,
        old(state).mutable.room_for(records_bytes(batch@)),
    ensures
        final(state).wf(),
        final(state).mutable.spec_kind() == old(state).mutable.spec_kind(),
        final(state).mutable.entries_view() == apply_records(old(state).mutable.entries_view(), batch@, start_sequence),
        forall|n: nat| old(state).mutable.room_for(n + records_bytes(batch@)) ==> #[trigger] final(state).mutable.room_for(n),
        final(state).mutable.size_basis() == records_basis(old(state).mutable.spec_kind(), old(state).mutable.size_basis(), batch@),
        final(state).last_sequence == if batch@.len() > 0 && start_sequence + batch@.len() - 1 > old(state).last_sequence {
            (start_sequence + batch@.len() - 1) as u64
        } else {
            old(state).last_sequence
        },
        final(state).immutables@ == old(state).immutables@,
        final(state).l0_tables@ == old(state).l0_tables@,
        final(state).level_tables@ == old(state).level_tables@,
        final(state).closed == old(state).closed,
{
    let records = batch.records();
    let ghost rs = records_view(records@);
    let mut i: usize = 0;
    assert(rs.subrange(0, 0) =~= Seq::<RecordView>::empty());
    while i < records.len()
        invariant
            rs == batch@,
            rs == records_view(records@),
            i <= rs.len(),
            start_sequence + rs.len() <= u64::MAX,
            state.wf(),
            state.mutable.spec_kind() == old(state).mutable.spec_kind(),
            state.mutable.entries_view() == apply_records(old(state).mutable.entries_view(), rs.subrange(0, i as int), start_sequence),
            state.mutable.size_basis() == records_basis(old(state).mutable.spec_kind(), old(state).mutable.size_basis(), rs.subrange(0, i as int)),
            state.mutable.room_for((records_bytes(rs) - records_bytes(rs.subrange(0, i as int))) as nat),
            forall|n: nat| #[trigger] old(state).mutable.room_for(n + records_bytes(rs))
                ==> state.mutable.room_for((n + records_bytes(rs) - records_bytes(rs.subrange(0, i as int))) as nat),
            records_bytes(rs.subrange(0, i as int)) <= records_bytes(rs),
            state.last_sequence == if i > 0 && start_sequence + i - 1 > old(state).last_sequence {
                (start_sequence + i - 1) as u64
            } else {
                old(state).last_sequence
            },
            state.immutables@ == old(state).immutables@,
            state.l0_tables@ == old(state).l0_tables@,
            state.level_tables@ == old(state).level_tables@,
            state.closed == old(state).closed,
        decreases rs.len() - i,
    {
        let sequence = start_sequence + i as u64;
        let ghost prefix = rs.subrange(0, i as int);
        let ghost next = rs.subrange(0, i + 1);
        proof {
            assert(next.drop_last() =~= prefix);
            assert(next.last() == rs[i as int]);
            lemma_records_bytes_prefix(rs, i as int);
        }
        let ghost pre_mut = state.mutable;
        match &records[i] {
            BatchRecord::Put { key, value } => {
                state.mutable.put(sequence, key.clone(), value.clone());
            },
            BatchRecord::Delete { key } => {
                state.mutable.delete(sequence, key.clone());
            },
        }
        proof {
            assert forall|n: nat| #[trigger] old(state).mutable.room_for(n + records_bytes(rs))
                implies state.mutable.room_for((n + records_bytes(rs) - records_bytes(next)) as nat) by {
                let m = (n + records_bytes(rs) - records_bytes(next)) as nat;
                assert(pre_mut.room_for((n + records_bytes(rs) - records_bytes(prefix)) as nat));
                assert(state.mutable.room_for(m));
            }
        }
        if sequence > state.last_sequence {
            state.last_sequence = sequence;
        }
        i = i + 1;
    }
    assert(rs.subrange(0, i as int) =~= rs);
}

/// The bytes of a prefix of records one longer.
pub(crate) proof fn lemma_records_bytes_prefix(rs: Seq<RecordView>, i: int)
    requires
        0 <= i < rs.len(),
    ensures
        records_bytes(rs.subrange(0, i + 1)) == records_bytes(rs.subrange(0, i)) + rs[i].0.len() + match rs[i].1 {
            Some(v) => v.len(),
            None => 0,
        },
        records_bytes(rs.subrange(0, i + 1)) <= records_bytes(rs),
    decreases rs.len(),
{
    assert(rs.subrange(0, i + 1).drop_last() =~= rs.subrange(0, i));
    if i + 1 < rs.len() {
        lemma_records_bytes_prefix(rs.drop_last(), i);
        assert(rs.drop_last().subrange(0, i + 1) =~= rs.subrange(0, i + 1));
        assert(rs.drop_last().subrange(0, i) =~= rs.subrange(0, i));
    } else {
        assert(rs.subrange(0, i + 1) =~= rs);
    }
}

/// Freezes the mutable memtable once it is non-empty and has reached `memtable_size`,
/// replacing it with an empty one of `memtable_kind`. Says whether it froze.
pub fn freeze_mutable_if_needed(state: &mut DbState, memtable_size: usize, memtable_kind: MemTableKind) -> (r: bool)
    requires
        old(state).wf(),
    ensures
        final(state).wf(),
        r == (old(state).mutable.entries_view().len() > 0 && old(state).mutable.spec_approximate_size() >= memtable_size),
        r ==> final(state).immutables@ == old(state).immutables@.push(old(state).mutable)
            && final(state).mutable.entries_view() == Seq::<EntryView>::empty()
            && final(state).mutable.spec_kind() == memtable_kind
            && final(state).mutable.size_basis() == 0
            && forall|n: nat| n <= usize::MAX ==> #[trigger] final(state).mutable.room_for(n),
        !r ==> final(state).immutables@ == old(state).immutables@ && final(state).mutable == old(state).mutable,
        final(state).l0_tables@ == old(state).l0_tables@,
        final(state).level_tables@ == old(state).level_tables@,
        final(state).last_sequence == old(state).last_sequence,
        final(state).closed == old(state).closed,
{
    if state.mutable.is_empty() || state.mutable.approximate_size() < memtable_size {
        return false;
    }
    let mut frozen = MemTable::new(memtable_kind);
    std::mem::swap(&mut frozen, &mut state.mutable);
    state.immutables.push(frozen);
    proof {
        assert forall|i: int| 0 <= i < state.immutables@.len() implies (#[trigger] state.immutables@[i]).wf() by {
            if i < old(state).immutables@.len() {
                assert(state.immutables@[i] == old(state).immutables@[i]);
            }
        }
    }
    true
}

/// Takes the memtable to flush next: the oldest frozen one if any, else the mutable one
/// if it holds anything (replacing it with an empty one of `memtable_kind`).
pub fn take_oldest_flushable_memtable(state: &mut DbState, memtable_kind: MemTableKind) -> (r: Option<(MemTable, FlushSource)>)
    requires
        old(state).wf(),
    ensures
        final(state).wf(),
        old(state).immutables@.len() > 0 ==> (r matches Some((m, src)) && src == FlushSource::ImmutableOldest
            && m == old(state).immutables@[0] && final(state).immutables@ == old(state).immutables@.drop_first()
            && final(state).mutable == old(state).mutable),
        old(state).immutables@.len() == 0 && old(state).mutable.entries_view().len() > 0 ==> (r matches Some((m, src))
            && src == FlushSource::Mutable && m == old(state).mutable && final(state).immutables@ == old(state).immutables@
            && final(state).mutable.entries_view() == Seq::<EntryView>::empty() && final(state).mutable.spec_kind() == memtable_kind),
        old(state).immutables@.len() == 0 && old(state).mutable.entries_view().len() == 0 ==> r is None
            && final(state).immutables@ == old(state).immutables@ && final(state).mutable == old(state).mutable,
        r matches Some((m, _)) ==> m.wf(),
        final(state).l0_tables@ == old(state).l0_tables@,
        final(state).level_tables@ == old(state).level_tables@,
        final(state).last_sequence == old(state).last_sequence,
        final(state).closed == old(state).closed,
{
    if state.immutables.len() > 0 {
        let m = state.immutables.remove(0);
        proof {
            assert(state.immutables@ =~= old(state).immutables@.drop_first());
            assert forall|i: int| 0 <= i < state.immutables@.len() implies (#[trigger] state.immutables@[i]).wf() by {
                assert(state.immutables@[i] == old(state).immutables@[i + 1]);
            }
        }
        return Some((m, FlushSource::ImmutableOldest));
    }
    if state.mutable.is_empty() {
        return None;
    }
    let mut m = MemTable::new(memtable_kind);
    std::mem::swap(&mut m, &mut state.mutable);
    Some((m, FlushSource::Mutable))
}

/// Starts a flush: `Err(Closed)` once the engine is closed; otherwise the memtable to
/// write out, as [`take_oldest_flushable_memtable`] takes it.
pub fn begin_flush(state: &mut DbState, memtable_kind: MemTableKind) -> (r: Result<Option<(MemTable, FlushSource)>>)
    requires
        old(state).wf(),
    ensures
        final(state).wf(),
        old(state).closed ==> (r matches Err(Error::Closed) && *final(state) == *old(state)),
        !old(state).closed && old(state).immutables@.len() > 0 ==> (r matches Ok(Some((m, src))) && src == FlushSource::ImmutableOldest
            && m == old(state).immutables@[0] && final(state).immutables@ == old(state).immutables@.drop_first()
            && final(state).mutable == old(state).mutable),
        !old(state).closed && old(state).immutables@.len() == 0 && old(state).mutable.entries_view().len() > 0 ==> (r matches Ok(Some((m, src)))
            && src == FlushSource::Mutable && m == old(state).mutable && final(state).immutables@ == old(state).immutables@
            && final(state).mutable.entries_view() == Seq::<EntryView>::empty() && final(state).mutable.spec_kind() == memtable_kind),
        !old(state).closed && old(state).immutables@.len() == 0 && old(state).mutable.entries_view().len() == 0 ==> (r matches Ok(None)
            && final(state).immutables@ == old(state).immutables@ && final(state).mutable == old(state).mutable),
        r matches Ok(Some((m, _))) ==> m.wf(),
        final(state).l0_tables@ == old(state).l0_tables@,
        final(state).level_tables@ == old(state).level_tables@,
        final(state).last_sequence == old(state).last_sequence,
        final(state).closed == old(state).closed,
{
    if state.closed {
        return Err(Error::Closed);
    }
    Ok(take_oldest_flushable_memtable(state, memtable_kind))
}

/// Publishes a flushed table as the newest level-0 table.
pub fn install_l0_table(state: &mut DbState, table: TableRef)
    ensures
        final(state).l0_tables@ == seq![table] + old(state).l0_tables@,
        final(state).mutable == old(state).mutable,
        final(state).immutables@ == old(state).immutables@,
        final(state).level_tables@ == old(state).level_tables@,
        final(state).last_sequence == old(state).last_sequence,
        final(state).closed == old(state).closed,
{
    state.l0_tables.insert(0, table);
    assert(state.l0_tables@ =~= seq![table] + old(state).l0_tables@);
}

/// Puts back a memtable whose flush failed: a frozen one at the front of the frozen
/// list; the mutable one back in place if the mutable memtable is still empty, else as
/// the newest frozen one.
pub fn restore_flush_memtable(state: &mut DbState, memtable: MemTable, source: FlushSource)
    requires
        old(state).wf(),
        memtable.wf(),
    ensures
        final(state).wf(),
        source == FlushSource::ImmutableOldest ==> final(state).immutables@ == seq![memtable] + old(state).immutables@
            && final(state).mutable == old(state).mutable,
        source == FlushSource::Mutable && old(state).mutable.entries_view().len() == 0 ==> final(state).mutable == memtable
            && final(state).immutables@ == old(state).immutables@,
        source == FlushSource::Mutable && old(state).mutable.entries_view().len() > 0 ==> final(state).mutable == old(state).mutable
            && final(state).immutables@ == old(state).immutables@.push(memtable),
        final(state).l0_tables@ == old(state).l0_tables@,
        final(state).level_tables@ == old(state).level_tables@,
        final(state).last_sequence == old(state).last_sequence,
        final(state).closed == old(state).closed,
{
    match source {
        FlushSource::Mutable => {
            if state.mutable.is_empty() {
                state.mutable = memtable;
            } else {
                state.immutables.push(memtable);
                proof {
                    assert forall|i: int| 0 <= i < state.immutables@.len() implies (#[trigger] state.immutables@[i]).wf() by {
                        if i < old(state).immutables@.len() {
                            assert(state.immutables@[i] == old(state).immutables@[i]);
                        }
                    }
                }
            }
        },
        FlushSource::ImmutableOldest => {
            state.immutables.insert(0, memtable);
            proof {
                assert(state.immutables@ =~= seq![memtable] + old(state).immutables@);
                assert forall|i: int| 0 <= i < state.immutables@.len() implies (#[trigger] state.immutables@[i]).wf() by {
                    if i > 0 {
                        assert(state.immutables@[i] == old(state).immutables@[i - 1]);
                    }
                }
            }
        },
    }
}

/// The number of level-0 tables, then the number of tables in each level from 1 on.
pub fn level_file_counts(state: &DbState) -> (r: Vec<usize>)
    ensures
        r@.len() == if state.level_tables@.len() > 0 { state.level_tables@.len() } else { 1 },
        r@[0] == state.l0_tables@.len(),
        forall|i: int| 1 <= i < state.level_tables@.len() ==> r@[i] == (#[trigger] state.level_tables@[i])@.len(),
{
    let mut counts: Vec<usize> = Vec::new();
    counts.push(state.l0_tables.len());
    let mut i: usize = 1;
    while i < state.level_tables.len()
        invariant
            1 <= i,
            i <= state.level_tables@.len() || state.level_tables@.len() == 0 && i == 1,
            counts@.len() == i,
            counts@[0] == state.l0_tables@.len(),
            forall|j: int| 1 <= j < i ==> counts@[j] == (#[trigger] state.level_tables@[j])@.len(),
        decreases state.level_tables@.len() - i,
    {
        counts.push(state.level_tables[i].len());
        i = i + 1;
    }
    counts
}

} // verus!

verus! {

/// The first memtable, newest first, holding a version of `key` visible at `read_seq`
/// decides: its record.
pub open spec fn mems_lookup(ms: Seq<Seq<EntryView>>, key: Seq<u8>, read_seq: u64) -> Option<Option<Seq<u8>>>
    decreases ms.len(),
{
    if ms.len() == 0 {
        None
    } else {
        match first_visible(ms[0], key, read_seq) {
            Some(r) => Some(r),
            None => mems_lookup(ms.drop_first(), key, read_seq),
        }
    }
}

/// Whether `key` lies in a table's user-key range.
pub open spec fn table_covers(t: TableRef, key: Seq<u8>) -> bool {
    bytes_le(t.0@.2.0, key) && bytes_le(key, t.0@.3.0)
}

/// What reading `key` from one table gives: `None` for a read failure, `Some(None)`
/// when the table has nothing for it, `Some(Some(record))` when it decides.
pub open spec fn table_probe(t: TableRef, key: Seq<u8>, read_seq: u64) -> Option<Option<Option<Seq<u8>>>> {
    if !table_covers(t, key) {
        Some(None)
    } else {
        t.1.spec_get(key, read_seq)
    }
}

/// Reading `key` from tables in order: the first failure or decision.
pub open spec fn tables_lookup(ts: Seq<TableRef>, key: Seq<u8>, read_seq: u64) -> Option<Option<Option<Seq<u8>>>>
    decreases ts.len(),
{
    if ts.len() == 0 {
        Some(None)
    } else {
        match table_probe(ts[0], key, read_seq) {
            None => None,
            Some(Some(r)) => Some(Some(r)),
            Some(None) => tables_lookup(ts.drop_first(), key, read_seq),
        }
    }
}

/// The first table of a level covering `key`, if any.
pub open spec fn level_candidate(ts: Seq<TableRef>, key: Seq<u8>) -> Option<TableRef>
    decreases ts.len(),
{
    if ts.len() == 0 {
        None
    } else if table_covers(ts[0], key) {
        Some(ts[0])
    } else {
        level_candidate(ts.drop_first(), key)
    }
}

/// Reading `key` from levels `i` onwards, one candidate table per level.
pub open spec fn levels_lookup(levels: Seq<Seq<TableRef>>, i: int, key: Seq<u8>, read_seq: u64) -> Option<Option<Option<Seq<u8>>>>
    decreases levels.len() - i,
{
    if i < 0 || i >= levels.len() {
        Some(None)
    } else {
        match level_candidate(levels[i], key) {
            None => levels_lookup(levels, i + 1, key, read_seq),
            Some(t) => match t.1.spec_get(key, read_seq) {
                None => None,
                Some(Some(r)) => Some(Some(r)),
                Some(None) => levels_lookup(levels, i + 1, key, read_seq),
            },
        }
    }
}

/// What a point read of `key` at `read_seq` yields: `None` for a read failure, else the
/// value (`None` when absent or deleted). Memtables are consulted newest first, then the
/// level-0 tables in order, then one table per level from level 1 on.
pub open spec fn spec_lookup(state: DbState, key: Seq<u8>, read_seq: u64) -> Option<Option<Seq<u8>>> {
    match mems_lookup(memtables_newest_first(state.mutable.entries_view(), state.immutables_view()), key, read_seq) {
        Some(r) => Some(r),
        None => match tables_lookup(state.l0_tables@, key, read_seq) {
            None => None,
            Some(Some(r)) => Some(r),
            Some(None) => match levels_lookup(state.level_tables@.map_values(|l: Vec<TableRef>| l@), 1, key, read_seq) {
                None => None,
                Some(Some(r)) => Some(r),
                Some(None) => Some(None),
            },
        },
    }
}

/// Every table of the state, level-0 tables first, then the levels in order.
pub open spec fn all_tables(state: DbState) -> Seq<TableRef> {
    state.l0_tables@ + state.level_tables@.map_values(|l: Vec<TableRef>| l@).flatten()
}

/// Every reader of the state is usable.
pub open spec fn tables_wf(state: DbState) -> bool {
    forall|t: TableRef| all_tables(state).contains(t) ==> t.1.wf()
}

/// Whether a block cache answers every table of the state as a read of its file would:
/// tables with the same number are the same table, and each table's cached blocks are
/// the blocks its index names.
pub open spec fn cache_faithful(cache: Map<(u64, u64), Seq<EntryView>>, state: DbState) -> bool {
    let ts = all_tables(state);
    &&& forall|t1: TableRef, t2: TableRef| #[trigger] ts.contains(t1) && #[trigger] ts.contains(t2) && t1.0.number == t2.0.number
        ==> t1.1.image() == t2.1.image() && t1.1.index_entries() == t2.1.index_entries()
    &&& forall|t: TableRef| #[trigger] ts.contains(t) ==> offsets_name_one_block(t.1.index_entries())
        && cache_consistent(cache, t.0.number, t.1.image(), t.1.index_entries())
}

/// The index lengths of tables, added up.
pub open spec fn index_total(ts: Seq<TableRef>) -> nat
    decreases ts.len(),
{
    if ts.len() == 0 {
        0
    } else {
        ts[0].1.index_entries().len() + index_total(ts.drop_first())
    }
}

/// The index lengths of the tables of levels `i` onwards, added up.
pub open spec fn levels_index_total(levels: Seq<Seq<TableRef>>, i: int) -> nat
    decreases levels.len() - i,
{
    if i < 0 || i >= levels.len() {
        0
    } else {
        index_total(levels[i]) + levels_index_total(levels, i + 1)
    }
}

/// How many more cache lookups a point read may make: one per index entry of every table.
pub open spec fn lookup_budget(state: DbState) -> nat {
    index_total(state.l0_tables@) + levels_index_total(state.level_tables@.map_values(|l: Vec<TableRef>| l@), 1)
}

/// The bloom-filter outcomes of reading `key` from the tables `ts` in order until one
/// decides: how many covering tables the filter ruled out, and how many it let through
/// that held nothing visible.
pub open spec fn tables_bloom(ts: Seq<TableRef>, key: Seq<u8>, read_seq: u64) -> (nat, nat)
    decreases ts.len(),
{
    if ts.len() == 0 {
        (0, 0)
    } else {
        let rest = tables_bloom(ts.drop_first(), key, read_seq);
        if !table_covers(ts[0], key) {
            rest
        } else if !spec_may_contain(ts[0].1.props().3, key) {
            ((rest.0 + 1) as nat, rest.1)
        } else {
            match ts[0].1.spec_get(key, read_seq) {
                Some(None) => (rest.0, (rest.1 + 1) as nat),
                _ => (0, 0),
            }
        }
    }
}

/// The bloom-filter outcomes of reading `key` from levels `i` onwards, one candidate
/// table per level, until one decides.
pub open spec fn levels_bloom(levels: Seq<Seq<TableRef>>, i: int, key: Seq<u8>, read_seq: u64) -> (nat, nat)
    decreases levels.len() - i,
{
    if i < 0 || i >= levels.len() {
        (0, 0)
    } else {
        let rest = levels_bloom(levels, i + 1, key, read_seq);
        match level_candidate(levels[i], key) {
            None => rest,
            Some(t) => if !spec_may_contain(t.1.props().3, key) {
                ((rest.0 + 1) as nat, rest.1)
            } else {
                match t.1.spec_get(key, read_seq) {
                    Some(None) => (rest.0, (rest.1 + 1) as nat),
                    _ => (0, 0),
                }
            },
        }
    }
}

/// The bloom-filter outcomes of reading `key` from the tables of the state: the level-0
/// tables, then, if none of them decides, the levels.
pub open spec fn table_bloom_total(state: DbState, key: Seq<u8>, read_seq: u64) -> (nat, nat) {
    let a = tables_bloom(state.l0_tables@, key, read_seq);
    match tables_lookup(state.l0_tables@, key, read_seq) {
        Some(None) => {
            let b = levels_bloom(state.level_tables@.map_values(|l: Vec<TableRef>| l@), 1, key, read_seq);
            ((a.0 + b.0) as nat, (a.1 + b.1) as nat)
        },
        _ => a,
    }
}

/// The bloom-filter outcomes of a point read: none when a memtable decides.
pub open spec fn lookup_bloom(state: DbState, key: Seq<u8>, read_seq: u64) -> (nat, nat) {
    match mems_lookup(memtables_newest_first(state.mutable.entries_view(), state.immutables_view()), key, read_seq) {
        Some(_) => (0, 0),
        None => table_bloom_total(state, key, read_seq),
    }
}

/// Counters after `c.0` more filtered-out tables and `c.1` more false positives, each
/// wrapping around.
pub open spec fn bloom_counted(m: MetricsSnapshot, c: (nat, nat)) -> MetricsSnapshot {
    MetricsSnapshot {
        bloom_useful: ((m.bloom_useful + c.0) % 0x1_0000_0000_0000_0000) as u64,
        bloom_false_positive: ((m.bloom_false_positive + c.1) % 0x1_0000_0000_0000_0000) as u64,
        ..m
    }
}

proof fn lemma_wrap_step(x: u64, a: nat)
    requires
        x == a % 0x1_0000_0000_0000_0000,
    ensures
        wrap_add(x, 1) == (a + 1) % 0x1_0000_0000_0000_0000,
{
    vstd::arithmetic::div_mod::lemma_add_mod_noop(a as int, 1, 0x1_0000_0000_0000_0000);
    vstd::arithmetic::div_mod::lemma_small_mod(1, 0x1_0000_0000_0000_0000);
    if x + 1 < 0x1_0000_0000_0000_0000 {
        vstd::arithmetic::div_mod::lemma_small_mod((x + 1) as nat, 0x1_0000_0000_0000_0000);
    } else {
        vstd::arithmetic::div_mod::lemma_mod_self_0(0x1_0000_0000_0000_0000);
    }
}

proof fn lemma_bloom_counted_zero(m: MetricsSnapshot)
    ensures
        bloom_counted(m, (0, 0)) == m,
{
    vstd::arithmetic::div_mod::lemma_small_mod(m.bloom_useful as nat, 0x1_0000_0000_0000_0000);
    vstd::arithmetic::div_mod::lemma_small_mod(m.bloom_false_positive as nat, 0x1_0000_0000_0000_0000);
}

} // verus!

verus! {

/// The abstract value of an optional value.
pub open spec fn opt_bytes_view(o: Option<Vec<u8>>) -> Option<Seq<u8>> {
    match o {
        Some(v) => Some(v@),
        None => None,
    }
}

/// Every level-0 table is among the state's tables.
pub proof fn lemma_l0_member(state: DbState, i: int)
    requires
        0 <= i < state.l0_tables@.len(),
    ensures
        all_tables(state).contains(state.l0_tables@[i]),
{
    assert(all_tables(state)[i] == state.l0_tables@[i]);
}

proof fn lemma_flatten_member<A>(levels: Seq<Seq<A>>, i: int, j: int)
    requires
        0 <= i < levels.len(),
        0 <= j < levels[i].len(),
    ensures
        levels.flatten().contains(levels[i][j]),
    decreases i,
{
    if i == 0 {
        assert(levels.flatten() == levels[0] + levels.drop_first().flatten());
        assert(levels.flatten()[j] == levels[0][j]);
    } else {
        lemma_flatten_member(levels.drop_first(), i - 1, j);
        assert(levels.drop_first()[i - 1] == levels[i]);
        let f = levels.drop_first().flatten();
        let k = choose|k: int| 0 <= k < f.len() && f[k] == levels[i][j];
        assert(levels.flatten() == levels[0] + f);
        assert(levels.flatten()[levels[0].len() + k] == f[k]);
    }
}

/// Every table of every level is among the state's tables.
pub proof fn lemma_level_member(state: DbState, i: int, j: int)
    requires
        0 <= i < state.level_tables@.len(),
        0 <= j < state.level_tables@[i]@.len(),
    ensures
        all_tables(state).contains(state.level_tables@[i]@[j]),
{
    let levels = state.level_tables@.map_values(|l: Vec<TableRef>| l@);
    assert(levels[i] == state.level_tables@[i]@);
    lemma_flatten_member(levels, i, j);
    let f = levels.flatten();
    let k = choose|k: int| 0 <= k < f.len() && f[k] == levels[i][j];
    assert(all_tables(state)[state.l0_tables@.len() + k] == f[k]);
}

/// A read through the cache for table `t` keeps the cache faithful to the state.
proof fn lemma_faithful_preserved(
    old_cache: Map<(u64, u64), Seq<EntryView>>,
    new_cache: Map<(u64, u64), Seq<EntryView>>,
    state: DbState,
    t: TableRef,
)
    requires
        cache_faithful(old_cache, state),
        all_tables(state).contains(t),
        cache_consistent(new_cache, t.0.number, t.1.image(), t.1.index_entries()),
        forall|k: (u64, u64)| #[trigger] new_cache.dom().contains(k) && k.0 != t.0.number
            ==> old_cache.dom().contains(k) && new_cache[k] == old_cache[k],
    ensures
        cache_faithful(new_cache, state),
{
    let ts = all_tables(state);
    assert forall|u: TableRef| #[trigger] ts.contains(u) implies offsets_name_one_block(u.1.index_entries())
        && cache_consistent(new_cache, u.0.number, u.1.image(), u.1.index_entries()) by {
        if u.0.number == t.0.number {
            assert(u.1.image() == t.1.image() && u.1.index_entries() == t.1.index_entries());
        } else {
            let idx = u.1.index_entries();
            assert forall|i: int| 0 <= i < idx.len() && #[trigger] new_cache.dom().contains((u.0.number, idx[i].2.offset))
                implies crate::table::reader::spec_block_entries(u.1.image(), idx[i].2) == Some(new_cache[(u.0.number, idx[i].2.offset)]) by {
                assert(old_cache.dom().contains((u.0.number, idx[i].2.offset)));
            }
        }
    }
}

proof fn lemma_index_total_step(ts: Seq<TableRef>, i: int)
    requires
        0 <= i < ts.len(),
    ensures
        index_total(ts.skip(i)) == ts[i].1.index_entries().len() + index_total(ts.skip(i + 1)),
{
    assert(ts.skip(i).drop_first() =~= ts.skip(i + 1));
    assert(ts.skip(i)[0] == ts[i]);
}

proof fn lemma_index_total_member(ts: Seq<TableRef>, i: int)
    requires
        0 <= i < ts.len(),
    ensures
        ts[i].1.index_entries().len() <= index_total(ts),
    decreases ts.len(),
{
    if i > 0 {
        lemma_index_total_member(ts.drop_first(), i - 1);
        assert(ts.drop_first()[i - 1] == ts[i]);
    }
}

} // verus!

verus! {

/// Reads `key` from the level-0 tables and then from one table per level from level 1
/// on, through `cache` when `use_cache` is set, counting bloom-filter outcomes.
fn lookup_tables(state: &DbState, key: &[u8], read_seq: u64, cache: &mut BlockCache, use_cache: bool, metrics: &mut Metrics) -> (r: Result<Option<ValueRecord>>)
    requires
        tables_wf(*state),
        old(cache).wf(),
        use_cache ==> old(cache).spec_stats().hits + lookup_budget(*state) < u64::MAX,
        use_cache ==> old(cache).spec_stats().misses + lookup_budget(*state) < u64::MAX,
    ensures
        final(cache).wf(),
        final(cache).capacity() == old(cache).capacity(),
        final(metrics)@ == (MetricsSnapshot {
            bloom_useful: final(metrics)@.bloom_useful,
            bloom_false_positive: final(metrics)@.bloom_false_positive,
            ..old(metrics)@
        }),
        !use_cache || cache_faithful(old(cache).cached(), *state) ==> {
            &&& (use_cache ==> cache_faithful(final(cache).cached(), *state))
            &&& (r is Ok ==> final(metrics)@ == bloom_counted(old(metrics)@, table_bloom_total(*state, key@, read_seq)))
            &&& match tables_lookup(state.l0_tables@, key@, read_seq) {
                None => r is Err,
                Some(Some(rec)) => r matches Ok(Some(v)) && v@ == rec,
                Some(None) => match levels_lookup(state.level_tables@.map_values(|l: Vec<TableRef>| l@), 1, key@, read_seq) {
                    None => r is Err,
                    Some(Some(rec)) => r matches Ok(Some(v)) && v@ == rec,
                    Some(None) => r matches Ok(None),
                },
            }
        },
{
    let ghost good = !use_cache || cache_faithful(old(cache).cached(), *state);
    let ghost l0 = state.l0_tables@;
    let ghost levels = state.level_tables@.map_values(|l: Vec<TableRef>| l@);
    let ghost mut cu: nat = 0;
    let ghost mut cf: nat = 0;
    let mut i: usize = 0;
    assert(l0.skip(0) =~= l0);
    proof {
        lemma_bloom_counted_zero(old(metrics)@);
    }
    while i < state.l0_tables.len()
        invariant
            metrics@ == bloom_counted(old(metrics)@, (cu, cf)),
            good ==> tables_bloom(l0, key@, read_seq) == ((cu + tables_bloom(l0.skip(i as int), key@, read_seq).0) as nat,
                (cf + tables_bloom(l0.skip(i as int), key@, read_seq).1) as nat),
            tables_wf(*state),
            l0 == state.l0_tables@,
            levels == state.level_tables@.map_values(|l: Vec<TableRef>| l@),
            i <= l0.len(),
            cache.wf(),
            cache.capacity() == old(cache).capacity(),
            use_cache ==> cache.spec_stats().hits + index_total(l0.skip(i as int)) + levels_index_total(levels, 1) < u64::MAX,
            use_cache ==> cache.spec_stats().misses + index_total(l0.skip(i as int)) + levels_index_total(levels, 1) < u64::MAX,
            good == (!use_cache || cache_faithful(old(cache).cached(), *state)),
            good && use_cache ==> cache_faithful(cache.cached(), *state),
            good ==> tables_lookup(l0, key@, read_seq) == tables_lookup(l0.skip(i as int), key@, read_seq),
        decreases l0.len() - i,
    {
        let (meta, table) = &state.l0_tables[i];
        let ghost t = l0[i as int];
        proof {
            lemma_l0_member(*state, i as int);
            lemma_index_total_step(l0, i as int);
            assert(l0.skip(i as int)[0] == t);
            assert(l0.skip(i as int).drop_first() =~= l0.skip(i + 1));
        }
        if !meta.overlaps_user_key(key) {
            i = i + 1;
            continue;
        }
        if !table.might_contain(key) {
            proof {
                lemma_wrap_step(metrics@.bloom_useful, (old(metrics)@.bloom_useful + cu) as nat);
            }
            metrics.record_bloom_useful();
            proof {
                cu = cu + 1;
            }
            i = i + 1;
            continue;
        }
        let ghost before = cache.cached();
        let got = table.get_with_cache(key, read_seq, meta.number, Some(&mut *cache), use_cache);
        proof {
            if good && use_cache {
                lemma_faithful_preserved(before, cache.cached(), *state, t);
            }
        }
        match got {
            Err(e) => return Err(e),
            Ok(Some(rec)) => return Ok(Some(rec)),
            Ok(None) => {
                proof {
                    lemma_wrap_step(metrics@.bloom_false_positive, (old(metrics)@.bloom_false_positive + cf) as nat);
                }
                metrics.record_bloom_false_positive();
                proof {
                    cf = cf + 1;
                }
            },
        }
        i = i + 1;
    }
    let ghost l0u = cu;
    let ghost l0f = cf;
    proof {
        if good {
            assert(l0.skip(i as int).len() == 0);
        }
    }
    let mut li: usize = 1;
    while li < state.level_tables.len()
        invariant
            metrics@ == bloom_counted(old(metrics)@, (cu, cf)),
            good ==> tables_bloom(l0, key@, read_seq) == (l0u, l0f),
            good ==> levels_bloom(levels, 1, key@, read_seq) == (((cu - l0u) + levels_bloom(levels, li as int, key@, read_seq).0) as nat,
                ((cf - l0f) + levels_bloom(levels, li as int, key@, read_seq).1) as nat),
            l0u <= cu,
            l0f <= cf,
            tables_wf(*state),
            l0 == state.l0_tables@,
            levels == state.level_tables@.map_values(|l: Vec<TableRef>| l@),
            1 <= li,
            li <= levels.len() || (li == 1 && levels.len() == 0),
            cache.wf(),
            cache.capacity() == old(cache).capacity(),
            use_cache ==> cache.spec_stats().hits + levels_index_total(levels, li as int) < u64::MAX,
            use_cache ==> cache.spec_stats().misses + levels_index_total(levels, li as int) < u64::MAX,
            good == (!use_cache || cache_faithful(old(cache).cached(), *state)),
            good && use_cache ==> cache_faithful(cache.cached(), *state),
            good ==> tables_lookup(l0, key@, read_seq) == Some(None::<Option<Seq<u8>>>),
            good ==> levels_lookup(levels, 1, key@, read_seq) == levels_lookup(levels, li as int, key@, read_seq),
        decreases levels.len() - li,
    {
        let level = &state.level_tables[li];
        let ghost lv = levels[li as int];
        assert(lv == level@);
        let mut j: usize = 0;
        let mut found: Option<usize> = None;
        assert(lv.skip(0) =~= lv);
        while j < level.len()
            invariant_except_break
                found is None,
            invariant
                lv == level@,
                j <= lv.len(),
                level_candidate(lv, key@) == level_candidate(lv.skip(j as int), key@),
            ensures
                (found is None && j == lv.len()) || (found == Some(j) && j < lv.len() && table_covers(lv[j as int], key@)),
            decreases lv.len() - j,
        {
            let (meta, _) = &level[j];
            proof {
                assert(lv.skip(j as int)[0] == lv[j as int]);
                assert(lv.skip(j as int).drop_first() =~= lv.skip(j + 1));
            }
            if meta.overlaps_user_key(key) {
                found = Some(j);
                break;
            }
            j = j + 1;
        }
        proof {
            assert(levels_index_total(levels, li as int) == index_total(lv) + levels_index_total(levels, li + 1));
        }
        match found {
            None => {
                assert(lv.skip(j as int).len() == 0);
            },
            Some(k) => {
                let (meta, table) = &level[k];
                let ghost t = lv[k as int];
                proof {
                    lemma_level_member(*state, li as int, k as int);
                    lemma_index_total_member(lv, k as int);
                    assert(lv.skip(k as int)[0] == t);
                    assert(level_candidate(lv, key@) == Some(t));
                }
                if !table.might_contain(key) {
                    proof {
                        lemma_wrap_step(metrics@.bloom_useful, (old(metrics)@.bloom_useful + cu) as nat);
                    }
                    metrics.record_bloom_useful();
                    proof {
                        cu = cu + 1;
                    }
                } else {
                    let ghost before = cache.cached();
                    let got = table.get_with_cache(key, read_seq, meta.number, Some(&mut *cache), use_cache);
                    proof {
                        if good && use_cache {
                            lemma_faithful_preserved(before, cache.cached(), *state, t);
                        }
                    }
                    match got {
                        Err(e) => return Err(e),
                        Ok(Some(rec)) => return Ok(Some(rec)),
                        Ok(None) => {
                            proof {
                                lemma_wrap_step(metrics@.bloom_false_positive, (old(metrics)@.bloom_false_positive + cf) as nat);
                            }
                            metrics.record_bloom_false_positive();
                            proof {
                                cf = cf + 1;
                            }
                        },
                    }
                }
            },
        }
        li = li + 1;
    }
    Ok(None)
}

} // verus!

verus! {

proof fn lemma_mems_step(imm: Seq<Seq<EntryView>>, i: int, key: Seq<u8>, read_seq: u64)
    requires
        0 < i <= imm.len(),
    ensures
        mems_lookup(imm.subrange(0, i).reverse(), key, read_seq) == match first_visible(imm[i - 1], key, read_seq) {
            Some(r) => Some(r),
            None => mems_lookup(imm.subrange(0, i - 1).reverse(), key, read_seq),
        },
{
    let a = imm.subrange(0, i).reverse();
    assert(a[0] == imm[i - 1]);
    assert(a.drop_first() =~= imm.subrange(0, i - 1).reverse());
}

/// A point read: `Err(Closed)` once the engine is closed; otherwise the value of `key`
/// at the snapshot of `opts`, or at the last sequence when there is none. Memtables are
/// read newest first, then tables, through `block_cache` when one is given and
/// `opts.fill_cache` is set.
#[verifier::loop_isolation(false)]
pub fn get_opt(
    state: &DbState,
    key: &[u8],
    opts: &ReadOptions,
    block_cache: Option<&mut BlockCache>,
    metrics: &mut Metrics,
) -> (r: Result<Option<Vec<u8>>>)
    requires
        state.wf(),
        tables_wf(*state),
        block_cache matches Some(c) ==> c.wf() && (opts.fill_cache ==> c.spec_stats().hits + lookup_budget(*state) < u64::MAX
            && c.spec_stats().misses + lookup_budget(*state) < u64::MAX),
    ensures
        state.closed ==> r matches Err(Error::Closed),
        block_cache matches Some(c) ==> final(c).wf() && final(c).capacity() == c.capacity(),
        !state.closed && (block_cache is None || !opts.fill_cache || (block_cache matches Some(c) && cache_faithful(c.cached(), *state)))
            ==> match spec_lookup(*state, key@, opts.read_seq_spec(state.last_sequence)) {
                None => r is Err,
                Some(v) => r matches Ok(x) && opt_bytes_view(x) == v,
            },
        block_cache matches Some(c) ==> (!state.closed && opts.fill_cache && cache_faithful(c.cached(), *state)
            ==> cache_faithful(final(c).cached(), *state)),
        final(metrics)@ == (MetricsSnapshot {
            bloom_useful: final(metrics)@.bloom_useful,
            bloom_false_positive: final(metrics)@.bloom_false_positive,
            ..old(metrics)@
        }),
        !state.closed && (block_cache is None || !opts.fill_cache || (block_cache matches Some(c) && cache_faithful(c.cached(), *state)))
            && r is Ok ==> final(metrics)@ == bloom_counted(old(metrics)@, lookup_bloom(*state, key@, opts.read_seq_spec(state.last_sequence))),
{
    if state.closed {
        return Err(Error::Closed);
    }
    let read_seq = opts.read_seq_or(state.last_sequence);
    proof {
        lemma_bloom_counted_zero(old(metrics)@);
    }
    match state.mutable.get(key, read_seq) {
        Some(record) => return Ok(record.into_visible_value()),
        None => {},
    }
    let ghost imm = state.immutables_view();
    proof {
        assert(memtables_newest_first(state.mutable.entries_view(), imm).drop_first() =~= imm.subrange(0, imm.len() as int).reverse());
        assert(memtables_newest_first(state.mutable.entries_view(), imm)[0] == state.mutable.entries_view());
    }
    let mut i: usize = state.immutables.len();
    while i > 0
        invariant
            i <= imm.len(),
            imm == state.immutables_view(),
            imm.len() == state.immutables@.len(),
            state.wf(),
            mems_lookup(memtables_newest_first(state.mutable.entries_view(), imm), key@, read_seq)
                == mems_lookup(imm.subrange(0, i as int).reverse(), key@, read_seq),
        decreases i,
    {
        proof {
            lemma_mems_step(imm, i as int, key@, read_seq);
            assert(imm[i - 1] == state.immutables@[i - 1].entries_view());
        }
        match state.immutables[i - 1].get(key, read_seq) {
            Some(record) => return Ok(record.into_visible_value()),
            None => {},
        }
        i = i - 1;
    }
    assert(imm.subrange(0, 0).reverse().len() == 0);
    let got = match block_cache {
        Some(c) => lookup_tables(state, key, read_seq, c, opts.fill_cache, metrics),
        None => {
            let mut unused = BlockCache::new(0);
            lookup_tables(state, key, read_seq, &mut unused, false, metrics)
        },
    };
    match got {
        Err(e) => Err(e),
        Ok(Some(record)) => Ok(record.into_visible_value()),
        Ok(None) => Ok(None),
    }
}

} // verus!

verus! {

/// Every entry after an upsert was there before or is the new one.
proof fn lemma_upsert_members(s: Seq<EntryView>, e: EntryView)
    ensures
        forall|x: EntryView| spec_upsert(s, e).contains(x) ==> s.contains(x) || x == e,
{
    crate::memtable::lemma_lower_bound(s, e.0);
    let p = crate::memtable::lower_bound(s, e.0) as int;
    let u = spec_upsert(s, e);
    assert forall|x: EntryView| u.contains(x) implies s.contains(x) || x == e by {
        let k = choose|k: int| 0 <= k < u.len() && u[k] == x;
        if p < s.len() && s[p].0 == e.0 {
            if k != p {
                assert(s[k] == x);
            }
        } else if k < p {
            assert(s[k] == x);
        } else if k > p {
            assert(s[k - 1] == x);
        }
    }
}

/// Applying records keeps entries sorted, and every entry afterwards was there before
/// or is one of the records at its sequence number.
proof fn lemma_apply_records(s: Seq<EntryView>, rs: Seq<RecordView>, start: u64)
    requires
        sorted_entries(s),
        start + rs.len() <= u64::MAX,
    ensures
        sorted_entries(apply_records(s, rs, start)),
        forall|x: EntryView| apply_records(s, rs, start).contains(x) ==> s.contains(x)
            || (start <= x.0.1 < start + rs.len()),
    decreases rs.len(),
{
    if rs.len() > 0 {
        lemma_apply_records(s, rs.drop_last(), start);
        let prev = apply_records(s, rs.drop_last(), start);
        let e = record_entry(rs.last(), (start + rs.len() - 1) as u64);
        crate::memtable::lemma_upsert_sorted(prev, e);
        lemma_upsert_members(prev, e);
    }
}

/// Read-your-write on a memtable: after records are applied at sequences `start`,
/// `start + 1`, ..., a read of the key of record `j` at any `read_seq` from its sequence
/// on sees that record, provided no later record writes the same key and every version
/// of the key already present is older than `start`.
pub proof fn lemma_read_your_write(s: Seq<EntryView>, rs: Seq<RecordView>, start: u64, j: int, read_seq: u64)
    requires
        sorted_entries(s),
        0 <= j < rs.len(),
        start + rs.len() <= u64::MAX,
        forall|i: int| 0 <= i < s.len() && #[trigger] s[i].0.0 == rs[j].0 ==> s[i].0.1 < start,
        forall|k: int| j < k < rs.len() ==> (#[trigger] rs[k]).0 != rs[j].0,
        start + j <= read_seq,
    ensures
        first_visible(apply_records(s, rs, start), rs[j].0, read_seq) == Some(rs[j].1),
    decreases rs.len(),
{
    let prefix = rs.drop_last();
    lemma_apply_records(s, prefix, start);
    let prev = apply_records(s, prefix, start);
    let e = record_entry(rs.last(), (start + rs.len() - 1) as u64);
    if j == rs.len() - 1 {
        let key = rs[j].0;
        assert forall|i: int| 0 <= i < prev.len() && #[trigger] prev[i].0.0 == key implies prev[i].0.1 < start + j by {
            assert(prev.contains(prev[i]));
            if s.contains(prev[i]) {
                let m = choose|m: int| 0 <= m < s.len() && s[m] == prev[i];
                assert(s[m].0.0 == key);
            }
        }
        match rs[j].1 {
            Some(v) => {
                crate::memtable::lemma_read_after_put(prev, key, (start + j) as u64, v, read_seq);
            },
            None => {
                crate::memtable::lemma_read_after_delete(prev, key, (start + j) as u64, read_seq);
            },
        }
    } else {
        assert(prefix[j] == rs[j]);
        assert forall|k: int| j < k < prefix.len() implies (#[trigger] prefix[k]).0 != prefix[j].0 by {
            assert(prefix[k] == rs[k]);
        }
        lemma_read_your_write(s, prefix, start, j, read_seq);
        assert(rs[rs.len() - 1].0 != rs[j].0);
        crate::memtable::lemma_invisible_write(prev, e, rs[j].0, read_seq);
    }
}

proof fn lemma_later_records_invisible(s: Seq<EntryView>, rs: Seq<RecordView>, start: u64, key: Seq<u8>, read_seq: u64)
    requires
        sorted_entries(s),
        start + rs.len() <= u64::MAX,
        read_seq < start,
    ensures
        first_visible(apply_records(s, rs, start), key, read_seq) == first_visible(s, key, read_seq),
    decreases rs.len(),
{
    if rs.len() > 0 {
        lemma_later_records_invisible(s, rs.drop_last(), start, key, read_seq);
        lemma_apply_records(s, rs.drop_last(), start);
        let prev = apply_records(s, rs.drop_last(), start);
        let e = record_entry(rs.last(), (start + rs.len() - 1) as u64);
        crate::memtable::lemma_newer_write_invisible(prev, e, key, read_seq);
    }
}

proof fn lemma_mems_lookup_push(ms: Seq<Seq<EntryView>>, x: Seq<EntryView>, key: Seq<u8>, read_seq: u64)
    ensures
        mems_lookup(ms.push(x), key, read_seq) == match mems_lookup(ms, key, read_seq) {
            Some(r) => Some(r),
            None => first_visible(x, key, read_seq),
        },
    decreases ms.len(),
{
    if ms.len() > 0 {
        assert(ms.push(x).drop_first() =~= ms.drop_first().push(x));
        assert(ms.push(x)[0] == ms[0]);
        lemma_mems_lookup_push(ms.drop_first(), x, key, read_seq);
    } else {
        let l = ms.push(x);
        assert(l.drop_first() =~= Seq::<Seq<EntryView>>::empty());
        assert(mems_lookup(l.drop_first(), key, read_seq) is None);
        assert(l[0] == x);
    }
}

/// Whether level `k` leaves a read of `key` undecided: it has no table whose range
/// covers the key, or the one that does holds no version of it visible at `read_seq`.
pub open spec fn level_passes(levels: Seq<Seq<TableRef>>, k: int, key: Seq<u8>, read_seq: u64) -> bool {
    match level_candidate(levels[k], key) {
        None => true,
        Some(t) => t.1.spec_get(key, read_seq) == Some(None::<Option<Seq<u8>>>),
    }
}

/// A point read goes on through the levels: when no level from `j` up to (not
/// including) `i` decides and the table of level `i` covering `key` holds a visible
/// version `r`, the read of the levels from `j` on gives `r`.
pub proof fn lemma_levels_read_goes_deeper(levels: Seq<Seq<TableRef>>, j: int, i: int, key: Seq<u8>, read_seq: u64, r: Option<Seq<u8>>)
    requires
        0 <= j <= i < levels.len(),
        forall|k: int| j <= k < i ==> #[trigger] level_passes(levels, k, key, read_seq),
        level_candidate(levels[i], key) is Some,
        level_candidate(levels[i], key).unwrap().1.spec_get(key, read_seq) == Some(Some(r)),
    ensures
        levels_lookup(levels, j, key, read_seq) == Some(Some(r)),
    decreases i - j,
{
    if j < i {
        assert(level_passes(levels, j, key, read_seq));
        lemma_levels_read_goes_deeper(levels, j + 1, i, key, read_seq, r);
    }
}

/// A read of the level-0 tables goes on past tables that hold no visible version of
/// `key`: when each of the first `k` tables has none and the `k`-th has version `r`, the
/// read gives `r`.
pub proof fn lemma_l0_read_goes_on(ts: Seq<TableRef>, k: int, key: Seq<u8>, read_seq: u64, r: Option<Seq<u8>>)
    requires
        0 <= k < ts.len(),
        forall|m: int| 0 <= m < k ==> #[trigger] table_probe(ts[m], key, read_seq) == Some(None::<Option<Seq<u8>>>),
        table_probe(ts[k], key, read_seq) == Some(Some(r)),
    ensures
        tables_lookup(ts, key, read_seq) == Some(Some(r)),
    decreases k,
{
    if k > 0 {
        assert(table_probe(ts[0], key, read_seq) == Some(None::<Option<Seq<u8>>>));
        assert forall|m: int| 0 <= m < k - 1 implies #[trigger] table_probe(ts.drop_first()[m], key, read_seq) == Some(None::<Option<Seq<u8>>>) by {
            assert(ts.drop_first()[m] == ts[m + 1]);
        }
        assert(ts.drop_first()[k - 1] == ts[k]);
        lemma_l0_read_goes_on(ts.drop_first(), k - 1, key, read_seq, r);
    }
}

/// A read of the memtables goes on past memtables that hold no visible version of `key`:
/// when each of the first `k` (newest first) has none and the `k`-th has record `r`, the
/// read gives `r`.
pub proof fn lemma_memtables_read_goes_on(ms: Seq<Seq<EntryView>>, k: int, key: Seq<u8>, read_seq: u64, r: Option<Seq<u8>>)
    requires
        0 <= k < ms.len(),
        forall|m: int| 0 <= m < k ==> (#[trigger] first_visible(ms[m], key, read_seq)) is None,
        first_visible(ms[k], key, read_seq) == Some(r),
    ensures
        mems_lookup(ms, key, read_seq) == Some(r),
    decreases k,
{
    if k > 0 {
        assert(first_visible(ms[0], key, read_seq) is None);
        assert forall|m: int| 0 <= m < k - 1 implies (#[trigger] first_visible(ms.drop_first()[m], key, read_seq)) is None by {
            assert(ms.drop_first()[m] == ms[m + 1]);
        }
        assert(ms.drop_first()[k - 1] == ms[k]);
        lemma_memtables_read_goes_on(ms.drop_first(), k - 1, key, read_seq, r);
    }
}

/// A point read of the engine is decided by the newest memtable holding a visible version
/// of `key`: the mutable memtable (`i == -1`), or else frozen memtable `i` when no newer
/// frozen one holds one.
pub proof fn lemma_lookup_newest_memtable(state: DbState, key: Seq<u8>, read_seq: u64, i: int, r: Option<Seq<u8>>)
    requires
        -1 <= i < state.immutables@.len(),
        i == -1 ==> first_visible(state.mutable.entries_view(), key, read_seq) == Some(r),
        i >= 0 ==> first_visible(state.mutable.entries_view(), key, read_seq) is None
            && (forall|m: int| i < m < state.immutables@.len() ==> (#[trigger] first_visible(state.immutables@[m].entries_view(), key, read_seq)) is None)
            && first_visible(state.immutables@[i].entries_view(), key, read_seq) == Some(r),
    ensures
        spec_lookup(state, key, read_seq) == Some(r),
{
    let ms = memtables_newest_first(state.mutable.entries_view(), state.immutables_view());
    let n = state.immutables@.len();
    assert(ms[0] == state.mutable.entries_view());
    if i == -1 {
        lemma_memtables_read_goes_on(ms, 0, key, read_seq, r);
    } else {
        assert forall|m: int| 0 <= m < n - i implies (#[trigger] first_visible(ms[m], key, read_seq)) is None by {
            if m > 0 {
                assert(ms[m] == state.immutables_view()[n - m]);
                assert(state.immutables_view()[n - m] == state.immutables@[n - m].entries_view());
                assert(first_visible(state.immutables@[n - m].entries_view(), key, read_seq) is None);
            }
        }
        assert(ms[n - i] == state.immutables_view()[i]);
        assert(state.immutables_view()[i] == state.immutables@[i].entries_view());
        lemma_memtables_read_goes_on(ms, n - i, key, read_seq, r);
    }
}

/// A point read of the engine that no memtable decides is decided by the first level-0
/// table, in order, that holds a visible version of `key`.
pub proof fn lemma_lookup_reaches_l0(state: DbState, key: Seq<u8>, read_seq: u64, k: int, r: Option<Seq<u8>>)
    requires
        mems_lookup(memtables_newest_first(state.mutable.entries_view(), state.immutables_view()), key, read_seq) is None,
        0 <= k < state.l0_tables@.len(),
        forall|m: int| 0 <= m < k ==> #[trigger] table_probe(state.l0_tables@[m], key, read_seq) == Some(None::<Option<Seq<u8>>>),
        table_probe(state.l0_tables@[k], key, read_seq) == Some(Some(r)),
    ensures
        spec_lookup(state, key, read_seq) == Some(r),
{
    lemma_l0_read_goes_on(state.l0_tables@, k, key, read_seq, r);
}

/// How many levels from `i` on have a table covering `key` whose filter rejects it, and
/// how many have one whose filter admits it.
pub open spec fn levels_filter_counts(levels: Seq<Seq<TableRef>>, i: int, key: Seq<u8>) -> (nat, nat)
    decreases levels.len() - i,
{
    if i < 0 || i >= levels.len() {
        (0, 0)
    } else {
        let rest = levels_filter_counts(levels, i + 1, key);
        match level_candidate(levels[i], key) {
            None => rest,
            Some(t) => if spec_may_contain(t.1.props().3, key) {
                (rest.0, (rest.1 + 1) as nat)
            } else {
                ((rest.0 + 1) as nat, rest.1)
            },
        }
    }
}

/// A read that no level decides consults every level: each level whose covering table's
/// filter rejects `key` counts once as filtered out, and each whose filter admits it
/// counts once as a false positive.
pub proof fn lemma_levels_bloom_counts_every_level(levels: Seq<Seq<TableRef>>, i: int, key: Seq<u8>, read_seq: u64)
    requires
        0 <= i,
        forall|k: int| i <= k < levels.len() ==> #[trigger] level_passes(levels, k, key, read_seq),
    ensures
        levels_bloom(levels, i, key, read_seq) == levels_filter_counts(levels, i, key),
    decreases levels.len() - i,
{
    if i < levels.len() {
        assert(level_passes(levels, i, key, read_seq));
        lemma_levels_bloom_counts_every_level(levels, i + 1, key, read_seq);
    }
}

/// How many of `ts` cover `key` with a filter that rejects it, and how many cover it with
/// one that admits it.
pub open spec fn tables_filter_counts(ts: Seq<TableRef>, key: Seq<u8>) -> (nat, nat)
    decreases ts.len(),
{
    if ts.len() == 0 {
        (0, 0)
    } else {
        let rest = tables_filter_counts(ts.drop_first(), key);
        if !table_covers(ts[0], key) {
            rest
        } else if spec_may_contain(ts[0].1.props().3, key) {
            (rest.0, (rest.1 + 1) as nat)
        } else {
            ((rest.0 + 1) as nat, rest.1)
        }
    }
}

/// A read that no level-0 table decides consults every one that covers `key`: each whose
/// filter rejects it counts once as filtered out, each whose filter admits it once as a
/// false positive.
pub proof fn lemma_l0_bloom_counts_every_table(ts: Seq<TableRef>, key: Seq<u8>, read_seq: u64)
    requires
        forall|k: int| 0 <= k < ts.len() ==> #[trigger] table_probe(ts[k], key, read_seq) == Some(None::<Option<Seq<u8>>>),
    ensures
        tables_bloom(ts, key, read_seq) == tables_filter_counts(ts, key),
    decreases ts.len(),
{
    if ts.len() > 0 {
        assert(table_probe(ts[0], key, read_seq) == Some(None::<Option<Seq<u8>>>));
        assert forall|k: int| 0 <= k < ts.drop_first().len() implies #[trigger] table_probe(ts.drop_first()[k], key, read_seq) == Some(None::<Option<Seq<u8>>>) by {
            assert(ts.drop_first()[k] == ts[k + 1]);
        }
        lemma_l0_bloom_counts_every_table(ts.drop_first(), key, read_seq);
    }
}

/// The tables of each level of the state.
pub open spec fn state_levels(state: DbState) -> Seq<Seq<TableRef>> {
    state.level_tables@.map_values(|l: Vec<TableRef>| l@)
}

/// A point read of the engine finds a version that lives in a deeper level: when no
/// memtable and no level-0 table has a version of `key` visible at `read_seq`, levels
/// 1 to `i - 1` leave it undecided, and level `i`'s table covering `key` holds one, the
/// read gives that version.
pub proof fn lemma_lookup_reaches_level(state: DbState, key: Seq<u8>, read_seq: u64, i: int, r: Option<Seq<u8>>)
    requires
        mems_lookup(memtables_newest_first(state.mutable.entries_view(), state.immutables_view()), key, read_seq) is None,
        tables_lookup(state.l0_tables@, key, read_seq) == Some(None::<Option<Seq<u8>>>),
        1 <= i < state.level_tables@.len(),
        forall|k: int| 1 <= k < i ==> #[trigger] level_passes(state_levels(state), k, key, read_seq),
        level_candidate(state.level_tables@[i]@, key) is Some,
        level_candidate(state.level_tables@[i]@, key).unwrap().1.spec_get(key, read_seq) == Some(Some(r)),
    ensures
        spec_lookup(state, key, read_seq) == Some(r),
{
    let levels = state_levels(state);
    assert(levels[i] == state.level_tables@[i]@);
    assert(levels =~= state.level_tables@.map_values(|l: Vec<TableRef>| l@));
    lemma_levels_read_goes_deeper(levels, 1, i, key, read_seq, r);
}

/// Freezing keeps reads: once the mutable memtable has become the newest frozen one and
/// an empty memtable has taken its place, every point read gives what it gave before,
/// and a scan merges the same sequences.
pub proof fn lemma_freeze_preserves_reads(before: DbState, after: DbState, key: Seq<u8>, read_seq: u64)
    requires
        after.immutables_view() == before.immutables_view().push(before.mutable.entries_view()),
        after.mutable.entries_view().len() == 0,
        after.l0_tables@ == before.l0_tables@,
        after.level_tables@ == before.level_tables@,
    ensures
        spec_lookup(after, key, read_seq) == spec_lookup(before, key, read_seq),
        scan_children(after) == scan_children(before),
{
    let l1 = memtables_newest_first(before.mutable.entries_view(), before.immutables_view());
    let l2 = memtables_newest_first(after.mutable.entries_view(), after.immutables_view());
    assert(l2.drop_first() =~= l1) by {
        assert(before.immutables_view().push(before.mutable.entries_view()).reverse()
            =~= seq![before.mutable.entries_view()] + before.immutables_view().reverse());
    }
    assert(first_visible(l2[0], key, read_seq) is None);
    assert(l2.flatten() =~= l1.flatten()) by {
        assert(l2.first() =~= Seq::<EntryView>::empty());
    }
    assert(all_tables(after) =~= all_tables(before));
}

/// Flushing keeps reads: once the oldest frozen memtable has been taken away and a table
/// that answers every read as that memtable does has become the newest level-0 table,
/// every point read gives what it gave before.
pub proof fn lemma_flush_preserves_reads(before: DbState, after: DbState, table: TableRef, key: Seq<u8>, read_seq: u64)
    requires
        before.immutables@.len() > 0,
        after.immutables_view() == before.immutables_view().drop_first(),
        after.mutable.entries_view() == before.mutable.entries_view(),
        after.l0_tables@ == seq![table] + before.l0_tables@,
        after.level_tables@ == before.level_tables@,
        forall|k: Seq<u8>, q: u64| #[trigger] table_probe(table, k, q) == Some(first_visible(before.immutables@[0].entries_view(), k, q)),
    ensures
        spec_lookup(after, key, read_seq) == spec_lookup(before, key, read_seq),
{
    let imms = before.immutables_view();
    let m0 = before.immutables@[0].entries_view();
    let l1 = memtables_newest_first(before.mutable.entries_view(), imms);
    let l2 = memtables_newest_first(after.mutable.entries_view(), after.immutables_view());
    assert(imms[0] == m0);
    assert(l1 =~= l2.push(m0)) by {
        assert(imms.reverse() =~= imms.drop_first().reverse().push(imms[0]));
    }
    lemma_mems_lookup_push(l2, m0, key, read_seq);
    let ts = after.l0_tables@;
    assert(ts[0] == table);
    assert(ts.drop_first() =~= before.l0_tables@);
    assert(table_probe(table, key, read_seq) == Some(first_visible(m0, key, read_seq)));
}

/// Read-your-write through a commit: after a batch has been applied and the mutable
/// memtable possibly frozen (as [`apply_commit`] does), a point read of the key of record
/// `j` at any sequence from that record's on returns what the record wrote, under the
/// conditions of [`lemma_get_after_write`].
pub proof fn lemma_get_after_commit(before: DbState, after: DbState, rs: Seq<RecordView>, start: u64, j: int, read_seq: u64, froze: bool)
    requires
        before.wf(),
        froze ==> after.immutables@.len() > 0
            && after.immutables@.last().entries_view() == apply_records(before.mutable.entries_view(), rs, start)
            && after.mutable.entries_view() == Seq::<EntryView>::empty(),
        !froze ==> after.mutable.entries_view() == apply_records(before.mutable.entries_view(), rs, start),
        0 <= j < rs.len(),
        start + rs.len() <= u64::MAX,
        forall|i: int| 0 <= i < before.mutable.entries_view().len() && #[trigger] before.mutable.entries_view()[i].0.0 == rs[j].0
            ==> before.mutable.entries_view()[i].0.1 < start,
        forall|k: int| j < k < rs.len() ==> (#[trigger] rs[k]).0 != rs[j].0,
        start + j <= read_seq,
    ensures
        spec_lookup(after, rs[j].0, read_seq) == Some(rs[j].1),
{
    if !froze {
        lemma_get_after_write(before, after, rs, start, j, read_seq);
    } else {
        assert(sorted_entries(before.mutable.entries_view())) by {
            match before.mutable {
                MemTable::BTree(t) => t.lemma_wf_sorted(),
                MemTable::SkipList(t) => t.lemma_wf_sorted(),
            }
        }
        lemma_read_your_write(before.mutable.entries_view(), rs, start, j, read_seq);
        let imm = after.immutables_view();
        let ms = memtables_newest_first(after.mutable.entries_view(), imm);
        assert(ms[0] == after.mutable.entries_view());
        assert(first_visible(ms[0], rs[j].0, read_seq) is None);
        assert(ms.drop_first() =~= imm.reverse());
        assert(imm.reverse()[0] == imm[imm.len() - 1]);
        assert(imm[imm.len() - 1] == after.immutables@.last().entries_view());
        assert(mems_lookup(imm.reverse(), rs[j].0, read_seq) == Some(rs[j].1));
        assert(mems_lookup(ms, rs[j].0, read_seq) == Some(rs[j].1));
    }
}

/// Reads through a snapshot are not changed by later writes: applying a batch at
/// sequences above the snapshot's leaves every point read at the snapshot as it was.
pub proof fn lemma_snapshot_read_stable(before: DbState, after: DbState, rs: Seq<RecordView>, start: u64, key: Seq<u8>, read_seq: u64)
    requires
        before.wf(),
        after.mutable.entries_view() == apply_records(before.mutable.entries_view(), rs, start),
        after.immutables_view() == before.immutables_view(),
        after.l0_tables@ == before.l0_tables@,
        after.level_tables@ == before.level_tables@,
        start + rs.len() <= u64::MAX,
        read_seq < start,
    ensures
        spec_lookup(after, key, read_seq) == spec_lookup(before, key, read_seq),
{
    assert(sorted_entries(before.mutable.entries_view())) by {
        match before.mutable {
            MemTable::BTree(t) => t.lemma_wf_sorted(),
            MemTable::SkipList(t) => t.lemma_wf_sorted(),
        }
    }
    lemma_later_records_invisible(before.mutable.entries_view(), rs, start, key, read_seq);
    let ma = memtables_newest_first(after.mutable.entries_view(), after.immutables_view());
    let mb = memtables_newest_first(before.mutable.entries_view(), before.immutables_view());
    assert(ma[0] == after.mutable.entries_view());
    assert(mb[0] == before.mutable.entries_view());
    assert(ma.drop_first() =~= mb.drop_first());
}

/// Read-your-write on the engine: once a batch has been applied to the mutable memtable
/// at sequences `start`, `start + 1`, ..., a point read of the key of record `j` at any
/// sequence from that record's on returns what the record wrote (nothing for a delete),
/// provided no later record of the batch writes the same key and every version of the
/// key the memtable held before is older than `start`.
pub proof fn lemma_get_after_write(before: DbState, after: DbState, rs: Seq<RecordView>, start: u64, j: int, read_seq: u64)
    requires
        before.wf(),
        after.mutable.entries_view() == apply_records(before.mutable.entries_view(), rs, start),
        0 <= j < rs.len(),
        start + rs.len() <= u64::MAX,
        forall|i: int| 0 <= i < before.mutable.entries_view().len() && #[trigger] before.mutable.entries_view()[i].0.0 == rs[j].0
            ==> before.mutable.entries_view()[i].0.1 < start,
        forall|k: int| j < k < rs.len() ==> (#[trigger] rs[k]).0 != rs[j].0,
        start + j <= read_seq,
    ensures
        spec_lookup(after, rs[j].0, read_seq) == Some(rs[j].1),
{
    assert(sorted_entries(before.mutable.entries_view())) by {
        match before.mutable {
            MemTable::BTree(t) => t.lemma_wf_sorted(),
            MemTable::SkipList(t) => t.lemma_wf_sorted(),
        }
    }
    lemma_read_your_write(before.mutable.entries_view(), rs, start, j, read_seq);
    let ms = memtables_newest_first(after.mutable.entries_view(), after.immutables_view());
    assert(ms[0] == after.mutable.entries_view());
}

} // verus!

verus! {

/// Which user keys a conflict check looks at: one key, or a range.
#[derive(Debug)]
pub enum KeyFilter {
    Key(Vec<u8>),
    Range(KeyBound, KeyBound),
}

/// The abstract value of a key filter.
pub enum FilterView {
    Key(Seq<u8>),
    Range(BoundView, BoundView),
}

impl View for KeyFilter {
    type V = FilterView;

    open spec fn view(&self) -> FilterView {
        match self {
            KeyFilter::Key(k) => FilterView::Key(k@),
            KeyFilter::Range(lower, upper) => FilterView::Range(lower@, upper@),
        }
    }
}

/// Whether a user key passes the filter.
pub open spec fn filter_matches(f: FilterView, uk: Seq<u8>) -> bool {
    match f {
        FilterView::Key(k) => uk == k,
        FilterView::Range(lower, upper) => in_range(uk, lower, upper),
    }
}

impl KeyFilter {
    pub fn matches(&self, uk: &[u8]) -> (r: bool)
        ensures
            r == filter_matches(self@, uk@),
    {
        match self {
            KeyFilter::Key(k) => bytes_equal(uk, k.as_slice()),
            KeyFilter::Range(lower, upper) => within_bounds(uk, lower, upper),
        }
    }
}

/// Whether some entry is newer than `read_seq` and passes the filter.
pub open spec fn entries_any_after(es: Seq<EntryView>, read_seq: u64, f: FilterView) -> bool {
    exists|i: int| 0 <= i < es.len() && (#[trigger] es[i]).0.1 > read_seq && filter_matches(f, es[i].0.0)
}

/// Looking through tables in order, skipping those whose newest sequence is at most
/// `read_seq`: `None` at the first read failure, `Some(true)` at the first table holding
/// a newer entry that passes the filter, else `Some(false)`.
pub open spec fn tables_any_after(ts: Seq<TableRef>, read_seq: u64, f: FilterView) -> Option<bool>
    decreases ts.len(),
{
    if ts.len() == 0 {
        Some(false)
    } else if ts[0].0.largest_seq <= read_seq {
        tables_any_after(ts.drop_first(), read_seq, f)
    } else {
        match spec_table_entries_from(ts[0].1.image(), ts[0].1.index_entries(), 0) {
            None => None,
            Some(es) => if entries_any_after(es, read_seq, f) {
                Some(true)
            } else {
                tables_any_after(ts.drop_first(), read_seq, f)
            },
        }
    }
}

/// Whether anything written after `read_seq` passes the filter: the memtables first,
/// then the tables, level 0 first. `None` is a read failure.
pub open spec fn spec_any_entry_after(state: DbState, read_seq: u64, f: FilterView) -> Option<bool> {
    if entries_any_after(state.mutable.entries_view(), read_seq, f)
        || exists|i: int| 0 <= i < state.immutables@.len() && entries_any_after((#[trigger] state.immutables@[i]).entries_view(), read_seq, f) {
        Some(true)
    } else {
        tables_any_after(all_tables(state), read_seq, f)
    }
}

proof fn lemma_tables_any_concat(a: Seq<TableRef>, b: Seq<TableRef>, read_seq: u64, f: FilterView)
    ensures
        tables_any_after(a + b, read_seq, f) == match tables_any_after(a, read_seq, f) {
            Some(false) => tables_any_after(b, read_seq, f),
            other => other,
        },
    decreases a.len(),
{
    if a.len() > 0 {
        assert((a + b).drop_first() =~= a.drop_first() + b);
        assert((a + b)[0] == a[0]);
        lemma_tables_any_concat(a.drop_first(), b, read_seq, f);
    } else {
        assert(a + b =~= b);
    }
}

proof fn lemma_flatten_front(levels: Seq<Seq<TableRef>>, i: int)
    requires
        0 <= i < levels.len(),
    ensures
        levels.skip(i).flatten() == levels[i] + levels.skip(i + 1).flatten(),
{
    assert(levels.skip(i)[0] == levels[i]);
    assert(levels.skip(i).drop_first() =~= levels.skip(i + 1));
}

/// Whether an entry read from one table is newer than `read_seq` and passes the filter.
fn entries_any_after_exec(es: &[(InternalKey, ValueRecord)], read_seq: u64, f: &KeyFilter) -> (r: bool)
    ensures
        r == entries_any_after(entries_view(es@), read_seq, f@),
{
    let mut i: usize = 0;
    while i < es.len()
        invariant
            i <= es@.len(),
            forall|j: int| 0 <= j < i ==> !((#[trigger] entries_view(es@)[j]).0.1 > read_seq && filter_matches(f@, entries_view(es@)[j].0.0)),
        decreases es@.len() - i,
    {
        let (key, _) = &es[i];
        assert(entries_view(es@)[i as int] == (key@, es@[i as int].1@));
        if key.sequence() > read_seq && f.matches(key.user_key()) {
            return true;
        }
        i = i + 1;
    }
    false
}

/// The tables-in-order check of [`tables_any_after`], through the cache when `use_cache`.
fn tables_any_after_exec(
    state: &DbState,
    ts: &[TableRef],
    read_seq: u64,
    f: &KeyFilter,
    cache: &mut BlockCache,
    use_cache: bool,
) -> (r: Result<bool>)
    requires
        forall|t: TableRef| ts@.contains(t) ==> all_tables(*state).contains(t),
        old(cache).wf(),
        use_cache ==> old(cache).spec_stats().hits + index_total(ts@) < u64::MAX,
        use_cache ==> old(cache).spec_stats().misses + index_total(ts@) < u64::MAX,
    ensures
        final(cache).wf(),
        final(cache).capacity() == old(cache).capacity(),
        use_cache ==> final(cache).spec_stats().hits <= old(cache).spec_stats().hits + index_total(ts@),
        use_cache ==> final(cache).spec_stats().misses <= old(cache).spec_stats().misses + index_total(ts@),
        !use_cache || cache_faithful(old(cache).cached(), *state) ==> {
            &&& (use_cache ==> cache_faithful(final(cache).cached(), *state))
            &&& match tables_any_after(ts@, read_seq, f@) {
                None => r is Err,
                Some(b) => r == Ok::<bool, Error>(b),
            }
        },
{
    let ghost good = !use_cache || cache_faithful(old(cache).cached(), *state);
    let ghost s = ts@;
    let mut i: usize = 0;
    assert(s.skip(0) =~= s);
    while i < ts.len()
        invariant
            s == ts@,
            i <= s.len(),
            forall|t: TableRef| s.contains(t) ==> all_tables(*state).contains(t),
            cache.wf(),
            cache.capacity() == old(cache).capacity(),
            use_cache ==> cache.spec_stats().hits + index_total(s.skip(i as int)) < u64::MAX,
            use_cache ==> cache.spec_stats().misses + index_total(s.skip(i as int)) < u64::MAX,
            use_cache ==> cache.spec_stats().hits + index_total(s.skip(i as int)) <= old(cache).spec_stats().hits + index_total(s),
            use_cache ==> cache.spec_stats().misses + index_total(s.skip(i as int)) <= old(cache).spec_stats().misses + index_total(s),
            good == (!use_cache || cache_faithful(old(cache).cached(), *state)),
            good && use_cache ==> cache_faithful(cache.cached(), *state),
            good ==> tables_any_after(s, read_seq, f@) == tables_any_after(s.skip(i as int), read_seq, f@),
        decreases s.len() - i,
    {
        let (meta, table) = &ts[i];
        let ghost t = s[i as int];
        proof {
            assert(s.contains(t));
            lemma_index_total_step(s, i as int);
            assert(s.skip(i as int)[0] == t);
            assert(s.skip(i as int).drop_first() =~= s.skip(i + 1));
        }
        if meta.largest_seq <= read_seq {
            i = i + 1;
            continue;
        }
        let ghost before = cache.cached();
        let got = table.entries_with_cache(meta.number, Some(&mut *cache), use_cache);
        proof {
            if good && use_cache {
                lemma_faithful_preserved(before, cache.cached(), *state, t);
            }
        }
        match got {
            Err(e) => return Err(e),
            Ok(entries) => {
                if entries_any_after_exec(entries.as_slice(), read_seq, f) {
                    return Ok(true);
                }
            },
        }
        i = i + 1;
    }
    Ok(false)
}

/// Whether anything written after `read_seq` passes the filter: the memtables first,
/// then the level-0 tables, then every level; tables whose newest sequence is at most
/// `read_seq` are skipped. Reads through `block_cache` when one is given.
pub fn any_entry_after(state: &DbState, read_seq: u64, f: &KeyFilter, block_cache: Option<&mut BlockCache>) -> (r: Result<bool>)
    requires
        state.wf(),
        block_cache matches Some(c) ==> c.wf() && c.spec_stats().hits + index_total(all_tables(*state)) < u64::MAX
            && c.spec_stats().misses + index_total(all_tables(*state)) < u64::MAX,
    ensures
        block_cache matches Some(c) ==> final(c).wf() && final(c).capacity() == c.capacity()
            && final(c).spec_stats().hits <= c.spec_stats().hits + index_total(all_tables(*state))
            && final(c).spec_stats().misses <= c.spec_stats().misses + index_total(all_tables(*state)),
        block_cache is None || (block_cache matches Some(c) && cache_faithful(c.cached(), *state)) ==> match spec_any_entry_after(*state, read_seq, f@) {
            None => r is Err,
            Some(b) => r == Ok::<bool, Error>(b),
        },
        block_cache matches Some(c) ==> (cache_faithful(c.cached(), *state) ==> cache_faithful(final(c).cached(), *state)),
{
    let mut unused = BlockCache::new(0);
    let use_cache = block_cache.is_some();
    let cache: &mut BlockCache = match block_cache {
        Some(c) => c,
        None => &mut unused,
    };
    any_entry_after_in(state, read_seq, f, cache, use_cache)
}

#[verifier::loop_isolation(false)]
fn any_entry_after_in(state: &DbState, read_seq: u64, f: &KeyFilter, cache: &mut BlockCache, use_cache: bool) -> (r: Result<bool>)
    requires
        state.wf(),
        old(cache).wf(),
        use_cache ==> old(cache).spec_stats().hits + index_total(all_tables(*state)) < u64::MAX,
        use_cache ==> old(cache).spec_stats().misses + index_total(all_tables(*state)) < u64::MAX,
    ensures
        final(cache).wf(),
        final(cache).capacity() == old(cache).capacity(),
        use_cache ==> final(cache).spec_stats().hits <= old(cache).spec_stats().hits + index_total(all_tables(*state)),
        use_cache ==> final(cache).spec_stats().misses <= old(cache).spec_stats().misses + index_total(all_tables(*state)),
        !use_cache || cache_faithful(old(cache).cached(), *state) ==> {
            &&& (use_cache ==> cache_faithful(final(cache).cached(), *state))
            &&& match spec_any_entry_after(*state, read_seq, f@) {
                None => r is Err,
                Some(b) => r == Ok::<bool, Error>(b),
            }
        },
{
    let mutable_entries = state.mutable.entries();
    if entries_any_after_exec(mutable_entries.as_slice(), read_seq, f) {
        return Ok(true);
    }
    let mut m: usize = 0;
    while m < state.immutables.len()
        invariant
            m <= state.immutables@.len(),
            state.wf(),
            cache == old(cache),
            forall|j: int| 0 <= j < m ==> !entries_any_after((#[trigger] state.immutables@[j]).entries_view(), read_seq, f@),
        decreases state.immutables@.len() - m,
    {
        assert(state.immutables@[m as int].wf());
        let entries = state.immutables[m].entries();
        if entries_any_after_exec(entries.as_slice(), read_seq, f) {
            return Ok(true);
        }
        m = m + 1;
    }
    let ghost l0 = state.l0_tables@;
    let ghost levels = state.level_tables@.map_values(|l: Vec<TableRef>| l@);
    proof {
        assert forall|t: TableRef| l0.contains(t) implies all_tables(*state).contains(t) by {
            let k = choose|k: int| 0 <= k < l0.len() && l0[k] == t;
            lemma_l0_member(*state, k);
        }
        assert(all_tables(*state) == l0 + levels.flatten());
        lemma_tables_any_concat(l0, levels.flatten(), read_seq, f@);
        lemma_index_total_concat(l0, levels.flatten());
    }
    let ghost good = !use_cache || cache_faithful(old(cache).cached(), *state);
    match tables_any_after_exec(state, state.l0_tables.as_slice(), read_seq, f, cache, use_cache) {
        Err(e) => return Err(e),
        Ok(true) => return Ok(true),
        Ok(false) => {},
    }
    let mut li: usize = 0;
    assert(levels.skip(0) =~= levels);
    while li < state.level_tables.len()
        invariant
            li <= levels.len(),
            levels == state.level_tables@.map_values(|l: Vec<TableRef>| l@),
            cache.wf(),
            cache.capacity() == old(cache).capacity(),
            use_cache ==> cache.spec_stats().hits + index_total(levels.skip(li as int).flatten()) < u64::MAX,
            use_cache ==> cache.spec_stats().misses + index_total(levels.skip(li as int).flatten()) < u64::MAX,
            use_cache ==> cache.spec_stats().hits + index_total(levels.skip(li as int).flatten()) <= old(cache).spec_stats().hits + index_total(all_tables(*state)),
            use_cache ==> cache.spec_stats().misses + index_total(levels.skip(li as int).flatten()) <= old(cache).spec_stats().misses + index_total(all_tables(*state)),
            good ==> tables_any_after(all_tables(*state), read_seq, f@) == tables_any_after(levels.skip(li as int).flatten(), read_seq, f@),
            good && use_cache ==> cache_faithful(cache.cached(), *state),
        decreases levels.len() - li,
    {
        let level = &state.level_tables[li];
        proof {
            assert(levels[li as int] == level@);
            lemma_flatten_front(levels, li as int);
            lemma_tables_any_concat(level@, levels.skip(li + 1).flatten(), read_seq, f@);
            lemma_index_total_concat(level@, levels.skip(li + 1).flatten());
            assert forall|t: TableRef| level@.contains(t) implies all_tables(*state).contains(t) by {
                let k = choose|k: int| 0 <= k < level@.len() && level@[k] == t;
                lemma_level_member(*state, li as int, k);
            }
        }
        match tables_any_after_exec(state, level.as_slice(), read_seq, f, cache, use_cache) {
            Err(e) => return Err(e),
            Ok(true) => return Ok(true),
            Ok(false) => {},
        }
        li = li + 1;
    }
    proof {
        assert(levels.skip(li as int).len() == 0);
        assert(levels.skip(li as int).flatten() =~= Seq::<TableRef>::empty());
    }
    Ok(false)
}

proof fn lemma_index_total_concat(a: Seq<TableRef>, b: Seq<TableRef>)
    ensures
        index_total(a + b) == index_total(a) + index_total(b),
    decreases a.len(),
{
    if a.len() > 0 {
        assert((a + b).drop_first() =~= a.drop_first() + b);
        assert((a + b)[0] == a[0]);
        lemma_index_total_concat(a.drop_first(), b);
    } else {
        assert(a + b =~= b);
    }
}

} // verus!

verus! {

/// What `String::from_utf8_lossy` makes of `bytes`.
pub uninterp spec fn utf8_lossy(bytes: Seq<u8>) -> Seq<char>;

/// `String::from_utf8_lossy`, as an owned string. Its result depends on the bytes alone;
/// the contract names it and claims nothing more.
#[verifier::external_body]
fn lossy_text(bytes: &[u8]) -> (r: String)
    ensures
        r@ == utf8_lossy(bytes@),
{
    String::from_utf8_lossy(bytes).into_owned()
}

/// Looking through keys in order: `None` at the first read failure, the first key with
/// a write after `read_seq`, or `Some(None)` when there is none.
pub open spec fn keys_check(state: DbState, read_seq: u64, keys: Seq<Seq<u8>>) -> Option<Option<Seq<u8>>>
    decreases keys.len(),
{
    if keys.len() == 0 {
        Some(None)
    } else {
        match spec_any_entry_after(state, read_seq, FilterView::Key(keys[0])) {
            None => None,
            Some(true) => Some(Some(keys[0])),
            Some(false) => keys_check(state, read_seq, keys.drop_first()),
        }
    }
}

/// Looking through ranges in order: `None` at the first read failure, `Some(true)` at the
/// first range with a write after `read_seq`, else `Some(false)`.
pub open spec fn ranges_check(state: DbState, read_seq: u64, ranges: Seq<(BoundView, BoundView)>) -> Option<bool>
    decreases ranges.len(),
{
    if ranges.len() == 0 {
        Some(false)
    } else {
        match spec_any_entry_after(state, read_seq, FilterView::Range(ranges[0].0, ranges[0].1)) {
            None => None,
            Some(true) => Some(true),
            Some(false) => ranges_check(state, read_seq, ranges.drop_first()),
        }
    }
}

/// The abstract value of a list of keys.
pub open spec fn key_list_view(keys: Seq<Vec<u8>>) -> Seq<Seq<u8>> {
    keys.map_values(|k: Vec<u8>| k@)
}

/// The abstract value of a list of ranges.
pub open spec fn range_list_view(ranges: Seq<(KeyBound, KeyBound)>) -> Seq<(BoundView, BoundView)> {
    ranges.map_values(|r: (KeyBound, KeyBound)| (r.0@, r.1@))
}

/// The first key of `keys` written after `read_seq`, checked in order.
#[verifier::loop_isolation(false)]
fn first_changed_key(state: &DbState, read_seq: u64, keys: &[Vec<u8>], cache: &mut BlockCache, use_cache: bool) -> (r: Result<Option<usize>>)
    requires
        state.wf(),
        old(cache).wf(),
        use_cache ==> old(cache).spec_stats().hits + keys@.len() * index_total(all_tables(*state)) < u64::MAX,
        use_cache ==> old(cache).spec_stats().misses + keys@.len() * index_total(all_tables(*state)) < u64::MAX,
    ensures
        final(cache).wf(),
        final(cache).capacity() == old(cache).capacity(),
        use_cache ==> final(cache).spec_stats().hits <= old(cache).spec_stats().hits + keys@.len() * index_total(all_tables(*state)),
        use_cache ==> final(cache).spec_stats().misses <= old(cache).spec_stats().misses + keys@.len() * index_total(all_tables(*state)),
        r matches Ok(Some(i)) ==> i < keys@.len(),
        !use_cache || cache_faithful(old(cache).cached(), *state) ==> {
            &&& (use_cache ==> cache_faithful(final(cache).cached(), *state))
            &&& match keys_check(*state, read_seq, key_list_view(keys@)) {
                None => r is Err,
                Some(None) => r matches Ok(None),
                Some(Some(k)) => r matches Ok(Some(i)) && i < keys@.len() && keys@[i as int]@ == k,
            }
        },
{
    let ghost good = !use_cache || cache_faithful(old(cache).cached(), *state);
    let ghost kv = key_list_view(keys@);
    let ghost total = index_total(all_tables(*state));
    let mut i: usize = 0;
    assert(kv.skip(0) =~= kv);
    while i < keys.len()
        invariant
            i <= keys@.len(),
            kv == key_list_view(keys@),
            cache.wf(),
            cache.capacity() == old(cache).capacity(),
            use_cache ==> cache.spec_stats().hits + (keys@.len() - i) * total <= old(cache).spec_stats().hits + keys@.len() * total,
            use_cache ==> cache.spec_stats().misses + (keys@.len() - i) * total <= old(cache).spec_stats().misses + keys@.len() * total,
            good && use_cache ==> cache_faithful(cache.cached(), *state),
            good ==> keys_check(*state, read_seq, kv) == keys_check(*state, read_seq, kv.skip(i as int)),
        decreases keys@.len() - i,
    {
        proof {
            assert(kv.skip(i as int)[0] == keys@[i as int]@);
            assert(kv.skip(i as int).drop_first() =~= kv.skip(i + 1));
            assert((keys@.len() - i) * total == (keys@.len() - i - 1) * total + total) by (nonlinear_arith);
        }
        let f = KeyFilter::Key(keys[i].clone());
        match any_entry_after_in(state, read_seq, &f, cache, use_cache) {
            Err(e) => return Err(e),
            Ok(true) => return Ok(Some(i)),
            Ok(false) => {},
        }
        i = i + 1;
    }
    Ok(None)
}

/// Whether any of `ranges` was written after `read_seq`, checked in order.
#[verifier::loop_isolation(false)]
fn any_range_changed(state: &DbState, read_seq: u64, ranges: &[(KeyBound, KeyBound)], cache: &mut BlockCache, use_cache: bool) -> (r: Result<bool>)
    requires
        state.wf(),
        old(cache).wf(),
        use_cache ==> old(cache).spec_stats().hits + ranges@.len() * index_total(all_tables(*state)) < u64::MAX,
        use_cache ==> old(cache).spec_stats().misses + ranges@.len() * index_total(all_tables(*state)) < u64::MAX,
    ensures
        final(cache).wf(),
        final(cache).capacity() == old(cache).capacity(),
        !use_cache || cache_faithful(old(cache).cached(), *state) ==> {
            &&& (use_cache ==> cache_faithful(final(cache).cached(), *state))
            &&& match ranges_check(*state, read_seq, range_list_view(ranges@)) {
                None => r is Err,
                Some(b) => r == Ok::<bool, Error>(b),
            }
        },
{
    let ghost good = !use_cache || cache_faithful(old(cache).cached(), *state);
    let ghost rv = range_list_view(ranges@);
    let ghost total = index_total(all_tables(*state));
    let mut i: usize = 0;
    assert(rv.skip(0) =~= rv);
    while i < ranges.len()
        invariant
            i <= ranges@.len(),
            rv == range_list_view(ranges@),
            cache.wf(),
            cache.capacity() == old(cache).capacity(),
            use_cache ==> cache.spec_stats().hits + (ranges@.len() - i) * total <= old(cache).spec_stats().hits + ranges@.len() * total,
            use_cache ==> cache.spec_stats().misses + (ranges@.len() - i) * total <= old(cache).spec_stats().misses + ranges@.len() * total,
            good && use_cache ==> cache_faithful(cache.cached(), *state),
            good ==> ranges_check(*state, read_seq, rv) == ranges_check(*state, read_seq, rv.skip(i as int)),
        decreases ranges@.len() - i,
    {
        proof {
            assert(rv.skip(i as int)[0] == (ranges@[i as int].0@, ranges@[i as int].1@));
            assert(rv.skip(i as int).drop_first() =~= rv.skip(i + 1));
            assert((ranges@.len() - i) * total == (ranges@.len() - i - 1) * total + total) by (nonlinear_arith);
        }
        let f = KeyFilter::Range(ranges[i].0.duplicate(), ranges[i].1.duplicate());
        match any_entry_after_in(state, read_seq, &f, cache, use_cache) {
            Err(e) => return Err(e),
            Ok(true) => return Ok(true),
            Ok(false) => {},
        }
        i = i + 1;
    }
    Ok(false)
}

/// The outcome of checking a transaction that read at `read_seq`: a read failure
/// (`None`), or the error it fails with, or success (`Some(None)`).
pub enum ConflictView {
    ReadKey(Seq<u8>),
    WriteKey(Seq<u8>),
    Range,
}

pub open spec fn spec_conflicts(
    state: DbState,
    read_seq: u64,
    read_keys: Seq<Seq<u8>>,
    read_ranges: Seq<(BoundView, BoundView)>,
    write_keys: Seq<Seq<u8>>,
) -> Option<Option<ConflictView>> {
    match keys_check(state, read_seq, read_keys) {
        None => None,
        Some(Some(k)) => Some(Some(ConflictView::ReadKey(k))),
        Some(None) => match keys_check(state, read_seq, write_keys) {
            None => None,
            Some(Some(k)) => Some(Some(ConflictView::WriteKey(k))),
            Some(None) => match ranges_check(state, read_seq, read_ranges) {
                None => None,
                Some(true) => Some(Some(ConflictView::Range)),
                Some(false) => Some(None),
            },
        },
    }
}

/// Optimistic validation of a transaction that read at `read_seq`: each key it read,
/// then each key it writes, then each range it scanned must have no write after
/// `read_seq`; the first that does fails the commit with a conflict naming it.
pub fn ensure_no_transaction_conflicts(
    state: &DbState,
    read_seq: u64,
    read_keys: &[Vec<u8>],
    read_ranges: &[(KeyBound, KeyBound)],
    write_keys: &[Vec<u8>],
    block_cache: Option<&mut BlockCache>,
) -> (r: Result<()>)
    requires
        state.wf(),
        block_cache matches Some(c) ==> c.wf()
            && c.spec_stats().hits + (read_keys@.len() + write_keys@.len() + read_ranges@.len()) * index_total(all_tables(*state)) < u64::MAX
            && c.spec_stats().misses + (read_keys@.len() + write_keys@.len() + read_ranges@.len()) * index_total(all_tables(*state)) < u64::MAX,
    ensures
        block_cache matches Some(c) ==> final(c).wf() && final(c).capacity() == c.capacity(),
        block_cache matches Some(c) ==> (cache_faithful(c.cached(), *state) ==> cache_faithful(final(c).cached(), *state)),
        block_cache is None || (block_cache matches Some(c) && cache_faithful(c.cached(), *state))
            ==> match spec_conflicts(*state, read_seq, key_list_view(read_keys@), range_list_view(read_ranges@), key_list_view(write_keys@)) {
                None => r is Err,
                Some(None) => r is Ok,
                Some(Some(ConflictView::ReadKey(k))) => r matches Err(Error::TransactionConflict(m))
                    && m@ == "read key changed after snapshot: "@ + utf8_lossy(k),
                Some(Some(ConflictView::WriteKey(k))) => r matches Err(Error::TransactionConflict(m))
                    && m@ == "write key changed after snapshot: "@ + utf8_lossy(k),
                Some(Some(ConflictView::Range)) => r matches Err(Error::TransactionConflict(m))
                    && m@ == "scanned range changed after snapshot"@,
            },
{
    let mut unused = BlockCache::new(0);
    let use_cache = block_cache.is_some();
    let cache: &mut BlockCache = match block_cache {
        Some(c) => c,
        None => &mut unused,
    };
    let ghost total = index_total(all_tables(*state));
    proof {
        let a = read_keys@.len() as int;
        let b = write_keys@.len() as int;
        let c = read_ranges@.len() as int;
        vstd::arithmetic::mul::lemma_mul_is_distributive_add_other_way(total as int, a, b + c);
        vstd::arithmetic::mul::lemma_mul_is_distributive_add_other_way(total as int, b, c);
        vstd::arithmetic::mul::lemma_mul_nonnegative(a, total as int);
        vstd::arithmetic::mul::lemma_mul_nonnegative(b, total as int);
        vstd::arithmetic::mul::lemma_mul_nonnegative(c, total as int);
    }
    match first_changed_key(state, read_seq, read_keys, cache, use_cache) {
        Err(e) => return Err(e),
        Ok(Some(i)) => {
            let mut message = String::from_str("read key changed after snapshot: ");
            let text = lossy_text(read_keys[i].as_slice());
            message.append(text.as_str());
            proof {
                reveal_strlit("read key changed after snapshot: ");
            }
            return Err(Error::TransactionConflict(message));
        },
        Ok(None) => {},
    }
    match first_changed_key(state, read_seq, write_keys, cache, use_cache) {
        Err(e) => return Err(e),
        Ok(Some(i)) => {
            let mut message = String::from_str("write key changed after snapshot: ");
            let text = lossy_text(write_keys[i].as_slice());
            message.append(text.as_str());
            proof {
                reveal_strlit("write key changed after snapshot: ");
            }
            return Err(Error::TransactionConflict(message));
        },
        Ok(None) => {},
    }
    match any_range_changed(state, read_seq, read_ranges, cache, use_cache) {
        Err(e) => Err(e),
        Ok(true) => {
            proof {
                reveal_strlit("scanned range changed after snapshot");
            }
            Err(Error::TransactionConflict(String::from_str("scanned range changed after snapshot")))
        },
        Ok(false) => Ok(()),
    }
}

} // verus!

verus! {

proof fn lemma_keys_check_finds(state: DbState, read_seq: u64, keys: Seq<Seq<u8>>, j: int)
    requires
        0 <= j < keys.len(),
        spec_any_entry_after(state, read_seq, FilterView::Key(keys[j])) != Some(false),
    ensures
        keys_check(state, read_seq, keys) != Some(None::<Seq<u8>>),
    decreases keys.len(),
{
    if j > 0 {
        assert(keys.drop_first()[j - 1] == keys[j]);
        lemma_keys_check_finds(state, read_seq, keys.drop_first(), j - 1);
    }
}

/// Every entry of a table has a sequence number at most the table's recorded largest.
pub open spec fn table_seq_bounded(t: TableRef) -> bool {
    match spec_table_entries_from(t.1.image(), t.1.index_entries(), 0) {
        Some(es) => forall|j: int| 0 <= j < es.len() ==> (#[trigger] es[j]).0.1 <= t.0.largest_seq,
        None => true,
    }
}

proof fn lemma_tables_any_finds(ts: Seq<TableRef>, read_seq: u64, f: FilterView, t: TableRef, es: Seq<EntryView>, j: int)
    requires
        ts.contains(t),
        spec_table_entries_from(t.1.image(), t.1.index_entries(), 0) == Some(es),
        0 <= j < es.len(),
        es[j].0.1 > read_seq,
        es[j].0.1 <= t.0.largest_seq,
        filter_matches(f, es[j].0.0),
    ensures
        tables_any_after(ts, read_seq, f) != Some(false),
    decreases ts.len(),
{
    if ts[0] == t {
        assert(entries_any_after(es, read_seq, f));
    } else {
        let k = choose|k: int| 0 <= k < ts.len() && ts[k] == t;
        assert(ts.drop_first()[k - 1] == t);
        lemma_tables_any_finds(ts.drop_first(), read_seq, f, t, es, j);
    }
}

/// Conflict checks see every write made after the snapshot, wherever it now lives: an
/// entry newer than `read_seq` that passes the filter, in a memtable or in any table of
/// any level, makes the check report a write (or a read failure met on the way), never
/// "nothing written".
pub proof fn lemma_later_write_seen(state: DbState, read_seq: u64, f: FilterView, t: TableRef, j: int)
    requires
        all_tables(state).contains(t),
        table_seq_bounded(t),
        spec_table_entries_from(t.1.image(), t.1.index_entries(), 0) is Some,
        0 <= j < spec_table_entries_from(t.1.image(), t.1.index_entries(), 0).unwrap().len(),
        spec_table_entries_from(t.1.image(), t.1.index_entries(), 0).unwrap()[j].0.1 > read_seq,
        filter_matches(f, spec_table_entries_from(t.1.image(), t.1.index_entries(), 0).unwrap()[j].0.0),
    ensures
        spec_any_entry_after(state, read_seq, f) != Some(false),
{
    let es = spec_table_entries_from(t.1.image(), t.1.index_entries(), 0).unwrap();
    assert(es[j].0.1 <= t.0.largest_seq);
    lemma_tables_any_finds(all_tables(state), read_seq, f, t, es, j);
}

/// Conflict checks see every write still in a memtable: an entry newer than `read_seq`
/// that passes the filter, in the mutable memtable or in any frozen one, makes the check
/// report a write.
pub proof fn lemma_memtable_write_seen(state: DbState, read_seq: u64, f: FilterView, i: int, j: int)
    requires
        -1 <= i < state.immutables@.len(),
        i == -1 ==> 0 <= j < state.mutable.entries_view().len() && state.mutable.entries_view()[j].0.1 > read_seq
            && filter_matches(f, state.mutable.entries_view()[j].0.0),
        i >= 0 ==> 0 <= j < state.immutables@[i].entries_view().len() && state.immutables@[i].entries_view()[j].0.1 > read_seq
            && filter_matches(f, state.immutables@[i].entries_view()[j].0.0),
    ensures
        spec_any_entry_after(state, read_seq, f) == Some(true),
{
    if i == -1 {
        assert(entries_any_after(state.mutable.entries_view(), read_seq, f));
    } else {
        assert(entries_any_after(state.immutables@[i].entries_view(), read_seq, f));
    }
}

/// A transaction whose read or written key was written after its snapshot by a version
/// that has since been flushed or compacted into any table of any level cannot commit.
pub proof fn lemma_table_write_refuses_commit(
    state: DbState,
    read_seq: u64,
    read_keys: Seq<Seq<u8>>,
    read_ranges: Seq<(BoundView, BoundView)>,
    write_keys: Seq<Seq<u8>>,
    key: Seq<u8>,
    t: TableRef,
    j: int,
)
    requires
        read_keys.contains(key) || write_keys.contains(key),
        all_tables(state).contains(t),
        table_seq_bounded(t),
        spec_table_entries_from(t.1.image(), t.1.index_entries(), 0) is Some,
        0 <= j < spec_table_entries_from(t.1.image(), t.1.index_entries(), 0).unwrap().len(),
        spec_table_entries_from(t.1.image(), t.1.index_entries(), 0).unwrap()[j].0.1 > read_seq,
        spec_table_entries_from(t.1.image(), t.1.index_entries(), 0).unwrap()[j].0.0 == key,
    ensures
        spec_conflicts(state, read_seq, read_keys, read_ranges, write_keys) != Some(None::<ConflictView>),
{
    lemma_later_write_seen(state, read_seq, FilterView::Key(key), t, j);
    lemma_conflict_refuses_commit(state, read_seq, read_keys, read_ranges, write_keys, key);
}

/// A transaction whose read or written key has been written again after its snapshot
/// (in a memtable or a table) cannot commit: validation fails, with a conflict or a read
/// failure met on the way.
pub proof fn lemma_conflict_refuses_commit(
    state: DbState,
    read_seq: u64,
    read_keys: Seq<Seq<u8>>,
    read_ranges: Seq<(BoundView, BoundView)>,
    write_keys: Seq<Seq<u8>>,
    key: Seq<u8>,
)
    requires
        read_keys.contains(key) || write_keys.contains(key),
        spec_any_entry_after(state, read_seq, FilterView::Key(key)) != Some(false),
    ensures
        spec_conflicts(state, read_seq, read_keys, read_ranges, write_keys) != Some(None::<ConflictView>),
{
    if read_keys.contains(key) {
        let j = choose|j: int| 0 <= j < read_keys.len() && read_keys[j] == key;
        lemma_keys_check_finds(state, read_seq, read_keys, j);
    } else {
        let j = choose|j: int| 0 <= j < write_keys.len() && write_keys[j] == key;
        lemma_keys_check_finds(state, read_seq, write_keys, j);
    }
}

proof fn lemma_ranges_check_finds(state: DbState, read_seq: u64, ranges: Seq<(BoundView, BoundView)>, j: int)
    requires
        0 <= j < ranges.len(),
        spec_any_entry_after(state, read_seq, FilterView::Range(ranges[j].0, ranges[j].1)) == Some(true),
    ensures
        ranges_check(state, read_seq, ranges) != Some(false),
    decreases ranges.len(),
{
    if j > 0 {
        assert(ranges.drop_first()[j - 1] == ranges[j]);
        lemma_ranges_check_finds(state, read_seq, ranges.drop_first(), j - 1);
    }
}

/// A transaction that scanned a range in which something has been written after its
/// snapshot (a phantom) cannot commit: validation fails, with a conflict or a read
/// failure met on the way.
pub proof fn lemma_phantom_refuses_commit(
    state: DbState,
    read_seq: u64,
    read_keys: Seq<Seq<u8>>,
    read_ranges: Seq<(BoundView, BoundView)>,
    write_keys: Seq<Seq<u8>>,
    j: int,
)
    requires
        0 <= j < read_ranges.len(),
        spec_any_entry_after(state, read_seq, FilterView::Range(read_ranges[j].0, read_ranges[j].1)) == Some(true),
    ensures
        spec_conflicts(state, read_seq, read_keys, read_ranges, write_keys) != Some(None::<ConflictView>),
{
    lemma_ranges_check_finds(state, read_seq, read_ranges, j);
}

} // verus!

verus! {

/// The entries of each table in order; `None` at the first read failure.
pub open spec fn tables_entries(ts: Seq<TableRef>) -> Option<Seq<Seq<EntryView>>>
    decreases ts.len(),
{
    if ts.len() == 0 {
        Some(Seq::empty())
    } else {
        match spec_table_entries_from(ts[0].1.image(), ts[0].1.index_entries(), 0) {
            None => None,
            Some(es) => match tables_entries(ts.drop_first()) {
                None => None,
                Some(rest) => Some(seq![es] + rest),
            },
        }
    }
}

proof fn lemma_tables_entries_len(ts: Seq<TableRef>)
    ensures
        tables_entries(ts) matches Some(all) ==> all.len() == ts.len(),
    decreases ts.len(),
{
    if ts.len() > 0 {
        lemma_tables_entries_len(ts.drop_first());
    }
}

proof fn lemma_tables_entries_concat(a: Seq<TableRef>, b: Seq<TableRef>)
    ensures
        tables_entries(a + b) == match tables_entries(a) {
            None => None,
            Some(x) => match tables_entries(b) {
                None => None,
                Some(y) => Some(x + y),
            },
        },
    decreases a.len(),
{
    if a.len() > 0 {
        assert((a + b).drop_first() =~= a.drop_first() + b);
        assert((a + b)[0] == a[0]);
        lemma_tables_entries_concat(a.drop_first(), b);
        match tables_entries(a.drop_first()) {
            Some(x) => match tables_entries(b) {
                Some(y) => {
                    let es = spec_table_entries_from(a[0].1.image(), a[0].1.index_entries(), 0);
                    if es is Some {
                        assert(seq![es.unwrap()] + (x + y) =~= (seq![es.unwrap()] + x) + y);
                    }
                },
                None => {},
            },
            None => {},
        }
    } else {
        assert(a + b =~= b);
        match tables_entries(b) {
            Some(y) => {
                assert(Seq::<Seq<EntryView>>::empty() + y =~= y);
            },
            None => {},
        }
    }
}

/// The entries of all memtables, the mutable one first, then the frozen ones from
/// newest to oldest.
pub open spec fn memtable_entries(state: DbState) -> Seq<EntryView> {
    memtables_newest_first(state.mutable.entries_view(), state.immutables_view()).flatten()
}

/// The sequences a scan merges: the memtable entries (when there are any), then each
/// table's entries, level 0 first; `None` when a table cannot be read.
pub open spec fn scan_children(state: DbState) -> Option<Seq<Seq<EntryView>>> {
    let mem = memtable_entries(state);
    match tables_entries(all_tables(state)) {
        None => None,
        Some(ts) => Some(if mem.len() > 0 { seq![mem] + ts } else { ts }),
    }
}

proof fn lemma_tables_entries_index(ts: Seq<TableRef>)
    ensures
        tables_entries(ts) matches Some(xs) ==> xs.len() == ts.len()
            && forall|k: int| 0 <= k < ts.len() ==> spec_table_entries_from((#[trigger] ts[k]).1.image(), ts[k].1.index_entries(), 0) == Some(xs[k]),
        (forall|k: int| 0 <= k < ts.len() ==> (spec_table_entries_from((#[trigger] ts[k]).1.image(), ts[k].1.index_entries(), 0)) is Some)
            ==> tables_entries(ts) is Some,
    decreases ts.len(),
{
    if ts.len() > 0 {
        lemma_tables_entries_index(ts.drop_first());
        assert forall|k: int| 0 <= k < ts.drop_first().len() implies #[trigger] ts.drop_first()[k] == ts[k + 1] by {}
        if tables_entries(ts) is Some {
            let xs = tables_entries(ts).unwrap();
            let rest = tables_entries(ts.drop_first()).unwrap();
            assert forall|k: int| 0 <= k < ts.len() implies spec_table_entries_from((#[trigger] ts[k]).1.image(), ts[k].1.index_entries(), 0) == Some(xs[k]) by {
                if k > 0 {
                    assert(ts[k] == ts.drop_first()[k - 1]);
                    assert(xs[k] == rest[k - 1]);
                }
            }
        }
        if forall|k: int| 0 <= k < ts.len() ==> (spec_table_entries_from((#[trigger] ts[k]).1.image(), ts[k].1.index_entries(), 0)) is Some {
            assert forall|k: int| 0 <= k < ts.drop_first().len() implies (spec_table_entries_from((#[trigger] ts.drop_first()[k]).1.image(), ts.drop_first()[k].1.index_entries(), 0)) is Some by {
                assert(ts.drop_first()[k] == ts[k + 1]);
            }
            assert(spec_table_entries_from(ts[0].1.image(), ts[0].1.index_entries(), 0) is Some);
        }
    }
}

/// A scan sees every memtable: each entry of the mutable memtable and of every frozen
/// one is among the memtable entries a scan merges.
pub proof fn lemma_scan_covers_memtables(state: DbState, i: int, j: int)
    requires
        -1 <= i < state.immutables@.len(),
        i == -1 ==> 0 <= j < state.mutable.entries_view().len(),
        i >= 0 ==> 0 <= j < state.immutables@[i].entries_view().len(),
    ensures
        memtable_entries(state).contains(
            if i == -1 { state.mutable.entries_view()[j] } else { state.immutables@[i].entries_view()[j] },
        ),
{
    let ms = memtables_newest_first(state.mutable.entries_view(), state.immutables_view());
    let n = state.immutables@.len();
    if i == -1 {
        assert(ms[0] == state.mutable.entries_view());
        lemma_flatten_member(ms, 0, j);
    } else {
        assert(ms[n - i] == state.immutables_view()[i]);
        assert(state.immutables_view()[i] == state.immutables@[i].entries_view());
        lemma_flatten_member(ms, n - i, j);
    }
}

/// A scan covers all data: what it merges holds, as one of its sources, the entries of
/// every table of every level (and the memtables' entries, when there are any); and when
/// every table can be read, the scan has its sources.
pub proof fn lemma_scan_covers_all_tables(state: DbState, t: TableRef)
    requires
        all_tables(state).contains(t),
        spec_table_entries_from(t.1.image(), t.1.index_entries(), 0) is Some,
    ensures
        scan_children(state) matches Some(cs) ==> exists|k: int| 0 <= k < cs.len()
            && cs[k] == spec_table_entries_from(t.1.image(), t.1.index_entries(), 0).unwrap(),
        scan_children(state) matches Some(cs) ==> (memtable_entries(state).len() > 0 ==> cs[0] == memtable_entries(state)),
        (forall|u: TableRef| #[trigger] all_tables(state).contains(u) ==> spec_table_entries_from(u.1.image(), u.1.index_entries(), 0) is Some)
            ==> scan_children(state) is Some,
{
    let ts = all_tables(state);
    lemma_tables_entries_index(ts);
    let j = choose|j: int| 0 <= j < ts.len() && ts[j] == t;
    if scan_children(state) is Some {
        let xs = tables_entries(ts).unwrap();
        let cs = scan_children(state).unwrap();
        assert(xs[j] == spec_table_entries_from(t.1.image(), t.1.index_entries(), 0).unwrap());
        if memtable_entries(state).len() > 0 {
            assert(cs[j + 1] == xs[j]);
        } else {
            assert(cs[j] == xs[j]);
        }
    }
    if forall|u: TableRef| #[trigger] all_tables(state).contains(u) ==> spec_table_entries_from(u.1.image(), u.1.index_entries(), 0) is Some {
        assert forall|k: int| 0 <= k < ts.len() implies (spec_table_entries_from((#[trigger] ts[k]).1.image(), ts[k].1.index_entries(), 0)) is Some by {
            assert(ts.contains(ts[k]));
        }
    }
}

/// Whether each of `sorted` holds the entries of the matching sequence of `cs`, sorted by
/// internal key.
pub open spec fn sorted_versions(sorted: Seq<Seq<EntryView>>, cs: Seq<Seq<EntryView>>) -> bool {
    &&& sorted.len() == cs.len()
    &&& forall|i: int| 0 <= i < cs.len() ==> #[trigger] sorted_nonstrict(sorted[i])
        && sorted[i].to_multiset() == cs[i].to_multiset()
}

/// Reads tables in order, each as an iterator over its entries.
fn table_children(
    state: &DbState,
    ts: &[TableRef],
    cache: &mut BlockCache,
    use_cache: bool,
    children: &mut Vec<EntryIterator>,
) -> (r: Result<()>)
    requires
        forall|t: TableRef| ts@.contains(t) ==> all_tables(*state).contains(t),
        old(cache).wf(),
        use_cache ==> old(cache).spec_stats().hits + index_total(ts@) < u64::MAX,
        use_cache ==> old(cache).spec_stats().misses + index_total(ts@) < u64::MAX,
        forall|i: int| 0 <= i < old(children)@.len() ==> (#[trigger] old(children)@[i]).inv() && old(children)@[i].infallible()
            && old(children)@[i].remaining() == old(children)@[i].all() && sorted_nonstrict(old(children)@[i].all()),
    ensures
        final(cache).wf(),
        final(cache).capacity() == old(cache).capacity(),
        use_cache ==> final(cache).spec_stats().hits <= old(cache).spec_stats().hits + index_total(ts@),
        use_cache ==> final(cache).spec_stats().misses <= old(cache).spec_stats().misses + index_total(ts@),
        forall|i: int| 0 <= i < final(children)@.len() ==> (#[trigger] final(children)@[i]).inv() && final(children)@[i].infallible()
            && final(children)@[i].remaining() == final(children)@[i].all() && sorted_nonstrict(final(children)@[i].all()),
        !use_cache || cache_faithful(old(cache).cached(), *state) ==> {
            &&& (use_cache ==> cache_faithful(final(cache).cached(), *state))
            &&& match tables_entries(ts@) {
                None => r is Err,
                Some(es) => r is Ok && final(children)@.len() == old(children)@.len() + es.len()
                    && final(children)@.subrange(0, old(children)@.len() as int) == old(children)@
                    && forall|i: int| 0 <= i < es.len() ==> (#[trigger] final(children)@[old(children)@.len() + i]).all().to_multiset() == es[i].to_multiset(),
            }
        },
{
    let ghost good = !use_cache || cache_faithful(old(cache).cached(), *state);
    let ghost s = ts@;
    let ghost base = old(children)@;
    let mut i: usize = 0;
    assert(s.skip(0) =~= s);
    assert(children@.subrange(0, base.len() as int) =~= base);
    proof {
        lemma_tables_entries_len(s);
        if let Some(all) = tables_entries(s) {
            assert(all.skip(0) =~= all);
        }
    }
    while i < ts.len()
        invariant
            s == ts@,
            i <= s.len(),
            forall|t: TableRef| s.contains(t) ==> all_tables(*state).contains(t),
            cache.wf(),
            cache.capacity() == old(cache).capacity(),
            use_cache ==> cache.spec_stats().hits + index_total(s.skip(i as int)) < u64::MAX,
            use_cache ==> cache.spec_stats().misses + index_total(s.skip(i as int)) < u64::MAX,
            use_cache ==> cache.spec_stats().hits + index_total(s.skip(i as int)) <= old(cache).spec_stats().hits + index_total(s),
            use_cache ==> cache.spec_stats().misses + index_total(s.skip(i as int)) <= old(cache).spec_stats().misses + index_total(s),
            forall|k: int| 0 <= k < children@.len() ==> (#[trigger] children@[k]).inv() && children@[k].infallible()
                && children@[k].remaining() == children@[k].all() && sorted_nonstrict(children@[k].all()),
            good == (!use_cache || cache_faithful(old(cache).cached(), *state)),
            good && use_cache ==> cache_faithful(cache.cached(), *state),
            good ==> match tables_entries(s) {
                None => tables_entries(s.skip(i as int)) is None,
                Some(all) => tables_entries(s.skip(i as int)) == Some(all.skip(i as int))
                    && all.len() == s.len()
                    && children@.len() == base.len() + i
                    && children@.subrange(0, base.len() as int) == base
                    && forall|k: int| 0 <= k < i ==> (#[trigger] children@[base.len() + k]).all().to_multiset() == all[k].to_multiset(),
            },
        decreases s.len() - i,
    {
        let (meta, table) = &ts[i];
        let ghost t = s[i as int];
        proof {
            assert(s.contains(t));
            lemma_index_total_step(s, i as int);
            assert(s.skip(i as int)[0] == t);
            assert(s.skip(i as int).drop_first() =~= s.skip(i + 1));
        }
        let ghost before = cache.cached();
        let got = table.entries_with_cache(meta.number, Some(&mut *cache), use_cache);
        proof {
            if good && use_cache {
                lemma_faithful_preserved(before, cache.cached(), *state, t);
            }
        }
        match got {
            Err(e) => return Err(e),
            Ok(entries) => {
                let ghost ev = entries_view(entries@);
                let ghost prev_children = children@;
                let it = EntryIterator::new(entries);
                children.push(it);
                proof {
                    if good {
                        match tables_entries(s) {
                            Some(all) => {
                                assert(all.skip(i as int)[0] == ev);
                                assert(all.skip(i as int).drop_first() =~= all.skip(i + 1));
                                assert(children@.subrange(0, base.len() as int) =~= prev_children.subrange(0, base.len() as int));
                                assert forall|k: int| 0 <= k < i + 1 implies (#[trigger] children@[base.len() + k]).all().to_multiset() == all[k].to_multiset() by {
                                    if k < i {
                                        assert(children@[base.len() + k] == prev_children[base.len() + k]);
                                    } else {
                                        assert(all[k] == all.skip(i as int)[0]);
                                    }
                                }
                            },
                            None => {},
                        }
                    }
                }
            },
        }
        i = i + 1;
    }
    proof {
        if good {
            match tables_entries(s) {
                Some(all) => {
                    assert(all.skip(i as int).len() == 0);
                    assert(tables_entries(s.skip(i as int)) == Some(Seq::<Seq<EntryView>>::empty()));
                },
                None => {
                    assert(s.skip(i as int).len() == 0);
                },
            }
        }
    }
    Ok(())
}

} // verus!

verus! {

/// The entries of all memtables, the mutable one first, then the frozen ones from newest
/// to oldest.
fn collect_memtable_entries(state: &DbState) -> (r: Vec<(InternalKey, ValueRecord)>)
    requires
        state.wf(),
    ensures
        entries_view(r@) == memtable_entries(*state),
{
    let mut entries = state.mutable.entries();
    let ghost imm = state.immutables_view();
    let ghost mv = state.mutable.entries_view();
    let mut i: usize = state.immutables.len();
    proof {
        assert(imm.subrange(i as int, imm.len() as int).reverse().flatten() =~= Seq::<EntryView>::empty());
        assert(entries_view(entries@) =~= mv + imm.subrange(i as int, imm.len() as int).reverse().flatten());
    }
    while i > 0
        invariant
            i <= imm.len(),
            imm == state.immutables_view(),
            imm.len() == state.immutables@.len(),
            mv == state.mutable.entries_view(),
            state.wf(),
            entries_view(entries@) == mv + imm.subrange(i as int, imm.len() as int).reverse().flatten(),
        decreases i,
    {
        assert(state.immutables@[i - 1].wf());
        let mut more = state.immutables[i - 1].entries();
        let ghost before = entries_view(entries@);
        entries.append(&mut more);
        proof {
            let x = imm.subrange(i as int, imm.len() as int).reverse();
            let y = imm.subrange(i - 1, imm.len() as int).reverse();
            assert(y =~= x.push(imm[i - 1]));
            x.lemma_flatten_push(imm[i - 1]);
            assert(imm[i - 1] == state.immutables@[i - 1].entries_view());
            assert(entries_view(entries@) =~= before + imm[i - 1]);
        }
        i = i - 1;
    }
    proof {
        assert(imm.subrange(0, imm.len() as int) =~= imm);
        let ms = memtables_newest_first(mv, imm);
        assert(ms.drop_first() =~= imm.reverse());
        assert(ms[0] == mv);
        assert(ms.flatten() == ms[0] + ms.drop_first().flatten());
    }
    entries
}

/// Iterators over every table's entries, level 0 first, appended to `children`.
#[verifier::loop_isolation(false)]
fn all_table_children(state: &DbState, cache: &mut BlockCache, use_cache: bool, children: &mut Vec<EntryIterator>) -> (r: Result<()>)
    requires
        state.wf(),
        old(cache).wf(),
        use_cache ==> old(cache).spec_stats().hits + index_total(all_tables(*state)) < u64::MAX,
        use_cache ==> old(cache).spec_stats().misses + index_total(all_tables(*state)) < u64::MAX,
        forall|i: int| 0 <= i < old(children)@.len() ==> (#[trigger] old(children)@[i]).inv() && old(children)@[i].infallible()
            && old(children)@[i].remaining() == old(children)@[i].all() && sorted_nonstrict(old(children)@[i].all()),
    ensures
        final(cache).wf(),
        final(cache).capacity() == old(cache).capacity(),
        forall|i: int| 0 <= i < final(children)@.len() ==> (#[trigger] final(children)@[i]).inv() && final(children)@[i].infallible()
            && final(children)@[i].remaining() == final(children)@[i].all() && sorted_nonstrict(final(children)@[i].all()),
        !use_cache || cache_faithful(old(cache).cached(), *state) ==> match tables_entries(all_tables(*state)) {
            None => r is Err,
            Some(all) => r is Ok && final(children)@.len() == old(children)@.len() + all.len()
                && final(children)@.subrange(0, old(children)@.len() as int) == old(children)@
                && forall|k: int| 0 <= k < all.len() ==> (#[trigger] final(children)@[old(children)@.len() + k]).all().to_multiset() == all[k].to_multiset(),
        },
{
    let ghost base = children@;
    let ghost good = !use_cache || cache_faithful(cache.cached(), *state);
    let ghost l0 = state.l0_tables@;
    let ghost levels = state.level_tables@.map_values(|l: Vec<TableRef>| l@);
    proof {
        assert forall|t: TableRef| l0.contains(t) implies all_tables(*state).contains(t) by {
            let k = choose|k: int| 0 <= k < l0.len() && l0[k] == t;
            lemma_l0_member(*state, k);
        }
        assert(all_tables(*state) == l0 + levels.flatten());
        lemma_tables_entries_concat(l0, levels.flatten());
        lemma_index_total_concat(l0, levels.flatten());
    }
    match table_children(state, state.l0_tables.as_slice(), cache, use_cache, children) {
        Err(e) => return Err(e),
        Ok(()) => {},
    }
    let mut li: usize = 0;
    assert(levels.skip(0) =~= levels);
    proof {
        lemma_tables_entries_len(l0);
        lemma_tables_entries_len(all_tables(*state));
        if good {
            if let Some(all) = tables_entries(all_tables(*state)) {
                let a = tables_entries(l0).unwrap();
                let rest = tables_entries(levels.flatten()).unwrap();
                assert(all == a + rest);
                assert(all.skip(a.len() as int) =~= rest);
                assert forall|k: int| 0 <= k < children@.len() - base.len() implies (#[trigger] children@[base.len() + k]).all().to_multiset() == all[k].to_multiset() by {
                    assert(all[k] == a[k]);
                }
            }
        }
    }
    while li < state.level_tables.len()
        invariant
            li <= levels.len(),
            levels == state.level_tables@.map_values(|l: Vec<TableRef>| l@),
            cache.wf(),
            cache.capacity() == old(cache).capacity(),
            use_cache ==> cache.spec_stats().hits + index_total(levels.skip(li as int).flatten()) < u64::MAX,
            use_cache ==> cache.spec_stats().misses + index_total(levels.skip(li as int).flatten()) < u64::MAX,
            good && use_cache ==> cache_faithful(cache.cached(), *state),
            forall|k: int| 0 <= k < children@.len() ==> (#[trigger] children@[k]).inv() && children@[k].infallible()
                && children@[k].remaining() == children@[k].all() && sorted_nonstrict(children@[k].all()),
            good ==> match tables_entries(all_tables(*state)) {
                None => tables_entries(levels.skip(li as int).flatten()) is None,
                Some(all) => {
                    &&& base.len() <= children@.len() <= base.len() + all.len()
                    &&& tables_entries(levels.skip(li as int).flatten()) == Some(all.skip(children@.len() - base.len()))
                    &&& children@.subrange(0, base.len() as int) == base
                    &&& forall|k: int| 0 <= k < children@.len() - base.len() ==> (#[trigger] children@[base.len() + k]).all().to_multiset() == all[k].to_multiset()
                },
            },
        decreases levels.len() - li,
    {
        let level = &state.level_tables[li];
        proof {
            assert(levels[li as int] == level@);
            lemma_flatten_front(levels, li as int);
            lemma_tables_entries_concat(level@, levels.skip(li + 1).flatten());
            lemma_index_total_concat(level@, levels.skip(li + 1).flatten());
            assert forall|t: TableRef| level@.contains(t) implies all_tables(*state).contains(t) by {
                let k = choose|k: int| 0 <= k < level@.len() && level@[k] == t;
                lemma_level_member(*state, li as int, k);
            }
        }
        let ghost before_children = children@;
        match table_children(state, level.as_slice(), cache, use_cache, children) {
            Err(e) => return Err(e),
            Ok(()) => {},
        }
        proof {
            lemma_tables_entries_len(level@);
            if good {
                if let Some(all) = tables_entries(all_tables(*state)) {
                    let es = tables_entries(level@).unwrap();
                    let k0 = before_children.len() - base.len();
                    let rest2 = tables_entries(levels.skip(li + 1).flatten()).unwrap();
                    assert(all.skip(k0) == es + rest2);
                    assert(all.skip(k0).len() == es.len() + rest2.len());
                    assert(all.len() == k0 + es.len() + rest2.len());
                    assert(all.skip(k0 + es.len()) =~= rest2) by {
                        assert forall|q: int| 0 <= q < rest2.len() implies all.skip(k0 + es.len())[q] == rest2[q] by {
                            assert(all.skip(k0 + es.len())[q] == all[k0 + es.len() + q]);
                            assert(all.skip(k0)[es.len() + q] == all[k0 + es.len() + q]);
                            assert((es + rest2)[es.len() + q] == rest2[q]);
                        }
                    }
                    assert(children@.subrange(0, base.len() as int) =~= before_children.subrange(0, base.len() as int)) by {
                        assert(children@.subrange(0, before_children.len() as int) == before_children);
                    }
                    assert forall|k: int| 0 <= k < children@.len() - base.len() implies (#[trigger] children@[base.len() + k]).all().to_multiset() == all[k].to_multiset() by {
                        if k < k0 {
                            assert(children@.subrange(0, before_children.len() as int) == before_children);
                            assert(children@[base.len() + k] == before_children[base.len() + k]);
                        } else {
                            assert(children@[before_children.len() + (k - k0)].all().to_multiset() == es[k - k0].to_multiset());
                            assert(all.skip(k0)[k - k0] == es[k - k0]);
                        }
                    }
                }
            }
        }
        li = li + 1;
    }
    proof {
        assert(levels.skip(li as int).len() == 0);
        assert(levels.skip(li as int).flatten() =~= Seq::<TableRef>::empty());
    }
    Ok(())
}

/// Merges the memtable entries and every table's entries and collects the visible rows.
fn scan_in(state: &DbState, lower: KeyBound, upper: KeyBound, read_seq: u64, cache: &mut BlockCache, use_cache: bool) -> (r: Result<Vec<(Vec<u8>, Vec<u8>)>>)
    requires
        state.wf(),
        old(cache).wf(),
        use_cache ==> old(cache).spec_stats().hits + index_total(all_tables(*state)) < u64::MAX,
        use_cache ==> old(cache).spec_stats().misses + index_total(all_tables(*state)) < u64::MAX,
    ensures
        final(cache).wf(),
        final(cache).capacity() == old(cache).capacity(),
        !use_cache || cache_faithful(old(cache).cached(), *state) ==> match scan_children(*state) {
            None => r is Err,
            Some(cs) => r matches Ok(rows) && exists|sorted: Seq<Seq<EntryView>>| #[trigger] sorted_versions(sorted, cs)
                && rows_view(rows@) == visible_rows(merged(sorted), lower@, upper@, read_seq),
        },
{
    let entries = collect_memtable_entries(state);
    let ghost mem = entries_view(entries@);
    let mut children: Vec<EntryIterator> = Vec::new();
    let has_mem = entries.len() > 0;
    if has_mem {
        children.push(EntryIterator::new(entries));
    }
    let ghost base = children@;
    assert(has_mem ==> base.len() == 1 && base[0].all().to_multiset() == mem.to_multiset());
    assert(!has_mem ==> base.len() == 0);
    let ghost good = !use_cache || cache_faithful(old(cache).cached(), *state);
    match all_table_children(state, cache, use_cache, &mut children) {
        Err(e) => return Err(e),
        Ok(()) => {},
    }
    let ghost final_children = children@;
    let ghost lv = lower@;
    let ghost uv = upper@;
    let merge = MergeIterator::new(children);
    let mut it = DBIterator::new(merge, lower, upper, read_seq);
    let rows = it.collect();
    proof {
        if good {
            if let Some(cs) = scan_children(*state) {
                let all = tables_entries(all_tables(*state)).unwrap();
                let sorted = children_remaining(final_children);
                assert(mem == memtable_entries(*state));
                assert(cs == if mem.len() > 0 { seq![mem] + all } else { all });
                assert(final_children.len() == base.len() + all.len());
                assert(sorted_versions(sorted, cs)) by {
                    assert forall|i: int| 0 <= i < cs.len() implies #[trigger] sorted_nonstrict(sorted[i])
                        && sorted[i].to_multiset() == cs[i].to_multiset() by {
                        assert(sorted[i] == final_children[i].remaining());
                        if has_mem && i == 0 {
                            assert(final_children.subrange(0, base.len() as int) == base);
                            assert(final_children[0] == base[0]);
                            assert(cs[0] == memtable_entries(*state));
                        } else {
                            let k = i - base.len();
                            assert(cs[i] == all[k]);
                            assert(final_children[base.len() + k].all().to_multiset() == all[k].to_multiset());
                        }
                    }
                }
            }
        }
    }
    rows
}

/// A range scan: `Err(Closed)` once the engine is closed; otherwise the newest visible
/// value of each user key in `[lower, upper]` at the snapshot of `opts` (or the last
/// sequence), merging the memtables and every table, reading through `block_cache` when
/// one is given and `opts.fill_cache` is set.
pub fn scan_opt(
    state: &DbState,
    lower: KeyBound,
    upper: KeyBound,
    opts: &ReadOptions,
    block_cache: Option<&mut BlockCache>,
) -> (r: Result<Vec<(Vec<u8>, Vec<u8>)>>)
    requires
        state.wf(),
        block_cache matches Some(c) ==> c.wf() && (opts.fill_cache ==> c.spec_stats().hits + index_total(all_tables(*state)) < u64::MAX
            && c.spec_stats().misses + index_total(all_tables(*state)) < u64::MAX),
    ensures
        state.closed ==> r matches Err(Error::Closed),
        block_cache matches Some(c) ==> final(c).wf() && final(c).capacity() == c.capacity(),
        !state.closed && (block_cache is None || !opts.fill_cache || (block_cache matches Some(c) && cache_faithful(c.cached(), *state)))
            ==> match scan_children(*state) {
                None => r is Err,
                Some(cs) => r matches Ok(rows) && (exists|sorted: Seq<Seq<EntryView>>| #[trigger] sorted_versions(sorted, cs)
                    && rows_view(rows@) == visible_rows(merged(sorted), lower@, upper@, opts.read_seq_spec(state.last_sequence)))
                    && ((forall|i: int| 0 <= i < cs.len() ==> keys_determine_records(#[trigger] cs[i]))
                        ==> rows_view(rows@) == visible_rows(merged(cs.map_values(|c: Seq<EntryView>| key_sorted(c))), lower@, upper@,
                            opts.read_seq_spec(state.last_sequence))),
            },
{
    if state.closed {
        return Err(Error::Closed);
    }
    let read_seq = opts.read_seq_or(state.last_sequence);
    let ghost lo = lower@;
    let ghost hi = upper@;
    let r = match block_cache {
        Some(c) => scan_in(state, lower, upper, read_seq, c, opts.fill_cache),
        None => {
            let mut unused = BlockCache::new(0);
            scan_in(state, lower, upper, read_seq, &mut unused, false)
        },
    };
    proof {
        match (scan_children(*state), &r) {
            (Some(cs), Ok(rows)) => {
                if (forall|i: int| 0 <= i < cs.len() ==> keys_determine_records(#[trigger] cs[i]))
                    && exists|sorted: Seq<Seq<EntryView>>| #[trigger] sorted_versions(sorted, cs)
                        && rows_view(rows@) == visible_rows(merged(sorted), lo, hi, read_seq) {
                    let sorted = choose|sorted: Seq<Seq<EntryView>>| #[trigger] sorted_versions(sorted, cs)
                        && rows_view(rows@) == visible_rows(merged(sorted), lo, hi, read_seq);
                    lemma_sorted_versions_unique(sorted, cs);
                }
            },
            _ => {},
        }
    }
    r
}

/// Arrangements of each sequence in internal-key order are the key-sorted sequences,
/// when internal keys name single records.
proof fn lemma_sorted_versions_unique(sorted: Seq<Seq<EntryView>>, cs: Seq<Seq<EntryView>>)
    requires
        sorted_versions(sorted, cs),
        forall|i: int| 0 <= i < cs.len() ==> keys_determine_records(#[trigger] cs[i]),
    ensures
        sorted == cs.map_values(|c: Seq<EntryView>| key_sorted(c)),
{
    let ks = cs.map_values(|c: Seq<EntryView>| key_sorted(c));
    assert forall|i: int| 0 <= i < cs.len() implies #[trigger] sorted[i] == ks[i] by {
        assert(sorted_versions(sorted, cs));
        assert(0 <= i < cs.len());
        assert(sorted_nonstrict(sorted[i]));
        assert(sorted[i].to_multiset() == cs[i].to_multiset());
        lemma_key_sorted(cs[i], sorted[i]);
    }
    assert(sorted =~= ks);
}

} // verus!

verus! {

/// The checks before a transaction's batch is logged and applied: `Err(Closed)` once the
/// engine is closed; a failed validation (see [`ensure_no_transaction_conflicts`], with
/// the batch's distinct keys as the written keys); nothing to do for an empty batch;
/// otherwise the first sequence number the batch takes.
pub fn prepare_commit(
    state: &DbState,
    read_seq: u64,
    batch: &WriteBatch,
    read_keys: &[Vec<u8>],
    read_ranges: &[(KeyBound, KeyBound)],
    block_cache: Option<&mut BlockCache>,
) -> (r: Result<Option<u64>>)
    requires
        state.wf(),
        batch@.len() > 0 ==> state.last_sequence < u64::MAX,
        block_cache matches Some(c) ==> c.wf()
            && c.spec_stats().hits + (read_keys@.len() + batch@.len() + read_ranges@.len()) * index_total(all_tables(*state)) < u64::MAX
            && c.spec_stats().misses + (read_keys@.len() + batch@.len() + read_ranges@.len()) * index_total(all_tables(*state)) < u64::MAX,
    ensures
        state.closed ==> r matches Err(Error::Closed),
        block_cache matches Some(c) ==> final(c).wf() && final(c).capacity() == c.capacity(),
        !state.closed && (block_cache is None || (block_cache matches Some(c) && cache_faithful(c.cached(), *state)))
            ==> exists|write_keys: Seq<Seq<u8>>| #[trigger] strictly_sorted_keys(write_keys)
                && write_keys.to_set() == batch_key_set(batch@)
                && match spec_conflicts(*state, read_seq, key_list_view(read_keys@), range_list_view(read_ranges@), write_keys) {
                    None => r is Err,
                    Some(Some(_)) => r matches Err(Error::TransactionConflict(_)),
                    Some(None) => if batch@.len() == 0 {
                        r matches Ok(None)
                    } else {
                        r matches Ok(Some(start)) && start == state.last_sequence + 1
                    },
                },
{
    if state.closed {
        return Err(Error::Closed);
    }
    let write_keys = batch_write_keys(batch);
    let ghost wk = key_list_view(write_keys@);
    proof {
        assert(wk == write_keys@.map_values(|k: Vec<u8>| k@));
        lemma_sorted_keys_len(wk, batch@);
        let n = (read_keys@.len() + write_keys@.len() + read_ranges@.len()) as int;
        let m = (read_keys@.len() + batch@.len() + read_ranges@.len()) as int;
        vstd::arithmetic::mul::lemma_mul_inequality(n, m, index_total(all_tables(*state)) as int);
    }
    match ensure_no_transaction_conflicts(state, read_seq, read_keys, read_ranges, write_keys.as_slice(), block_cache) {
        Err(e) => return Err(e),
        Ok(()) => {},
    }
    if batch.is_empty() {
        return Ok(None);
    }
    Ok(Some(state.last_sequence + 1))
}

/// A batch writes at most as many distinct keys as it has records.
proof fn lemma_sorted_keys_len(keys: Seq<Seq<u8>>, rs: Seq<RecordView>)
    requires
        strictly_sorted_keys(keys),
        keys.to_set() == batch_key_set(rs),
    ensures
        keys.len() <= rs.len(),
{
    assert(keys.no_duplicates()) by {
        assert forall|i: int, j: int| 0 <= i < keys.len() && 0 <= j < keys.len() && i != j implies keys[i] != keys[j] by {
            if i < j {
                crate::key::lemma_bytes_lt_irreflexive(keys[i]);
            } else {
                crate::key::lemma_bytes_lt_irreflexive(keys[j]);
            }
        }
    }
    keys.unique_seq_to_set();
    let ks = rs.map_values(|r: RecordView| r.0);
    assert(batch_key_set(rs) =~= ks.to_set()) by {
        assert forall|k: Seq<u8>| batch_key_set(rs).contains(k) <==> ks.to_set().contains(k) by {
            if batch_key_set(rs).contains(k) {
                let i = choose|i: int| 0 <= i < rs.len() && (#[trigger] rs[i]).0 == k;
                assert(ks[i] == k);
            }
            if ks.to_set().contains(k) {
                let i = choose|i: int| 0 <= i < ks.len() && ks[i] == k;
                assert(rs[i].0 == k);
            }
        }
    }
    ks.lemma_cardinality_of_set();
}

/// Applies a validated batch at `start_sequence` and freezes the mutable memtable if it
/// is non-empty and has grown to `memtable_size`; says whether it froze, so that a flush
/// should follow. Afterwards the mutable memtable is empty or below `memtable_size`.
pub fn apply_commit(state: &mut DbState, start_sequence: u64, batch: &WriteBatch, memtable_size: usize, memtable_kind: MemTableKind) -> (r: bool)
    requires
        old(state).wf(),
        start_sequence + batch@.len() <= u64::MAX,
        old(state).mutable.room_for(records_bytes(batch@)),
    ensures
        final(state).wf(),
        final(state).last_sequence == if batch@.len() > 0 && start_sequence + batch@.len() - 1 > old(state).last_sequence {
            (start_sequence + batch@.len() - 1) as u64
        } else {
            old(state).last_sequence
        },
        ({
            let applied = apply_records(old(state).mutable.entries_view(), batch@, start_sequence);
            if r {
                &&& final(state).immutables@.len() == old(state).immutables@.len() + 1
                &&& final(state).immutables@.subrange(0, old(state).immutables@.len() as int) == old(state).immutables@
                &&& final(state).immutables@.last().entries_view() == applied
                &&& final(state).immutables@.last().entries_view().len() > 0
                &&& final(state).immutables@.last().spec_approximate_size() >= memtable_size
                &&& final(state).mutable.entries_view() == Seq::<EntryView>::empty()
                &&& final(state).mutable.spec_kind() == memtable_kind
                &&& forall|n: nat| n <= usize::MAX ==> #[trigger] final(state).mutable.room_for(n)
            } else {
                &&& final(state).immutables@ == old(state).immutables@
                &&& final(state).mutable.entries_view() == applied
                &&& final(state).mutable.spec_kind() == old(state).mutable.spec_kind()
                &&& forall|n: nat| old(state).mutable.room_for(n + records_bytes(batch@)) ==> #[trigger] final(state).mutable.room_for(n)
            }
        }),
        final(state).mutable.entries_view().len() == 0 || final(state).mutable.spec_approximate_size() < memtable_size,
        final(state).l0_tables@ == old(state).l0_tables@,
        final(state).level_tables@ == old(state).level_tables@,
        final(state).closed == old(state).closed,
{
    apply_batch(state, start_sequence, batch);
    let ghost mid = state.immutables@;
    let froze = freeze_mutable_if_needed(state, memtable_size, memtable_kind);
    proof {
        if froze {
            assert(state.immutables@.subrange(0, mid.len() as int) =~= mid);
        }
    }
    froze
}

} // verus!
