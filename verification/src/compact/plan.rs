//! The decisions a compaction run makes around merging: which versions it may drop,
//! whether a trivial move must rewrite its file, which level an input file is removed
//! from, and how a new table file is described.
use vstd::prelude::*;

use crate::cache::block_cache::BlockCache;
use crate::compact::executor::{compact_entries, compact_rows};
use crate::compact::picker::levels_view;
use crate::compact::task::CompactionTask;
use crate::db_state::{index_total, TableRef};
use crate::error::{corruption, Error, Result};
use crate::iterator::storage_iterator::{key_sorted, keys_determine_records, sorted_nonstrict, stable_sort};
use crate::key::InternalKey;
use crate::memtable::{entries_view, EntryView};
use crate::memtable::btree::ValueRecord;
use crate::mvcc::watermark::Watermark;
use crate::table::properties::opt_key_view;
use crate::table::reader::{cache_consistent, offsets_name_one_block, spec_table_entries_from, SSTableReader};
use crate::version::{metas_view, spec_user_key_overlaps, FileMeta, FileMetaView};

verus! {

/// The sequence at or below which old versions may be collapsed, given the registered
/// snapshots' sequences: the oldest of them, or `last_sequence` when there is none.
pub open spec fn spec_gc_watermark(counts: Map<u64, nat>, last_sequence: u64) -> u64 {
    if counts.dom().is_empty() {
        last_sequence
    } else {
        choose|s: u64| counts.dom().contains(s) && forall|t: u64| #[trigger] counts.dom().contains(t) ==> s <= t
    }
}

/// The sequence at or below which old versions may be collapsed: the oldest registered
/// snapshot's, or the last sequence when no snapshot is registered.
pub fn gc_watermark(watermark: &Watermark, last_sequence: u64) -> (r: u64)
    requires
        watermark.wf(),
    ensures
        r == spec_gc_watermark(watermark.counts(), last_sequence),
        watermark.counts().dom().is_empty() ==> r == last_sequence,
        !watermark.counts().dom().is_empty() ==> watermark.counts().dom().contains(r)
            && forall|t: u64| #[trigger] watermark.counts().dom().contains(t) ==> r <= t,
{
    match watermark.oldest() {
        Some(s) => {
            let ghost c = spec_gc_watermark(watermark.counts(), last_sequence);
            assert(c <= s && s <= c);
            s
        },
        None => last_sequence,
    }
}

/// Whether some file of a level deeper than `output_level` overlaps `[lo, hi]`.
pub open spec fn deeper_overlap(levels: Seq<Seq<FileMetaView>>, output_level: nat, lo: Seq<u8>, hi: Seq<u8>) -> bool {
    exists|l: int, i: int| output_level < l < levels.len() && 0 <= i < levels[l].len()
        && spec_user_key_overlaps(#[trigger] levels[l][i], lo, hi)
}

/// Whether the task may drop tombstones: no level below its output level holds a file
/// overlapping its user-key range, so nothing older can be uncovered.
pub fn can_drop_tombstones(levels: &[Vec<FileMeta>], task: &CompactionTask) -> (r: bool)
    ensures
        r == !deeper_overlap(levels_view(levels@), task.output_level as nat, task.smallest_user_key@, task.largest_user_key@),
{
    let ghost lv = levels_view(levels@);
    let ghost lo = task.smallest_user_key@;
    let ghost hi = task.largest_user_key@;
    let mut l: usize = task.output_level;
    if l < levels.len() {
        l = l + 1;
    } else {
        l = levels.len();
    }
    while l < levels.len()
        invariant
            lv == levels_view(levels@),
            lo == task.smallest_user_key@,
            hi == task.largest_user_key@,
            l <= levels@.len(),
            task.output_level < l || l == levels@.len(),
            forall|l2: int, i: int| task.output_level < l2 < l && 0 <= i < lv[l2].len() ==> !spec_user_key_overlaps(#[trigger] lv[l2][i], lo, hi),
        decreases levels@.len() - l,
    {
        let files = levels[l].as_slice();
        assert(lv[l as int] == metas_view(levels@[l as int]@));
        let mut i: usize = 0;
        while i < files.len()
            invariant
                lv == levels_view(levels@),
                lo == task.smallest_user_key@,
                hi == task.largest_user_key@,
                task.output_level < l < levels@.len(),
                files@ == levels@[l as int]@,
                lv[l as int] == metas_view(files@),
                i <= files@.len(),
                forall|j: int| 0 <= j < i ==> !spec_user_key_overlaps(#[trigger] lv[l as int][j], lo, hi),
            decreases files@.len() - i,
        {
            assert(lv[l as int][i as int] == files@[i as int]@);
            if files[i].user_key_overlaps_range(task.smallest_user_key.as_slice(), task.largest_user_key.as_slice()) {
                assert(spec_user_key_overlaps(lv[l as int][i as int], lo, hi));
                return false;
            }
            i = i + 1;
        }
        l = l + 1;
    }
    true
}

/// The level an input file of the task is removed from: the input level for one of its
/// input files, the output level for the others.
pub fn input_file_level(task: &CompactionTask, number: u64) -> (r: usize)
    ensures
        r == if exists|i: int| 0 <= i < task.input_files@.len() && (#[trigger] task.input_files@[i]).number == number {
            task.input_level
        } else {
            task.output_level
        },
{
    let mut i: usize = 0;
    while i < task.input_files.len()
        invariant
            i <= task.input_files@.len(),
            forall|j: int| 0 <= j < i ==> (#[trigger] task.input_files@[j]).number != number,
        decreases task.input_files@.len() - i,
    {
        if task.input_files[i].number == number {
            return task.input_level;
        }
        i = i + 1;
    }
    task.output_level
}

/// Whether `b` says that compacting `es` at `gc_watermark` removes entries: `es` sorted
/// stably by internal key and compacted is shorter than `es` (and so for some
/// arrangement of `es` in internal-key order).
pub open spec fn rewrite_answer(es: Seq<EntryView>, gc_watermark: u64, drop_tombstones: bool, b: bool) -> bool {
    &&& b == (compact_rows(Seq::empty(), stable_sort(es), gc_watermark, drop_tombstones).len() != es.len())
    &&& exists|s: Seq<EntryView>| #![trigger sorted_nonstrict(s)]
        sorted_nonstrict(s) && s.to_multiset() == es.to_multiset()
        && b == (compact_rows(Seq::empty(), s, gc_watermark, drop_tombstones).len() != es.len())
    &&& keys_determine_records(es) ==> b == (compact_rows(Seq::empty(), key_sorted(es), gc_watermark, drop_tombstones).len() != es.len())
}

/// Whether `out` is `es` sorted stably by internal key and compacted at `gc_watermark`
/// (and so, for some arrangement of `es` in internal-key order, that arrangement
/// compacted).
pub open spec fn compacted_from(es: Seq<EntryView>, gc_watermark: u64, drop_tombstones: bool, out: Seq<EntryView>) -> bool {
    &&& sorted_nonstrict(out)
    &&& out == compact_rows(Seq::empty(), stable_sort(es), gc_watermark, drop_tombstones)
    &&& exists|s: Seq<EntryView>| #![trigger sorted_nonstrict(s)]
        sorted_nonstrict(s) && s.to_multiset() == es.to_multiset()
        && out == compact_rows(Seq::empty(), s, gc_watermark, drop_tombstones)
    &&& keys_determine_records(es) ==> out == compact_rows(Seq::empty(), key_sorted(es), gc_watermark, drop_tombstones)
}

/// Whether a trivial move of `table` must rewrite it after all: compacting its entries
/// at `gc_watermark` (dropping tombstones if `drop_tombstones`) would remove some.
/// Reads through `block_cache` under `number`.
pub fn trivial_move_needs_rewrite(
    table: &SSTableReader,
    number: u64,
    gc_watermark: u64,
    drop_tombstones: bool,
    block_cache: Option<&mut BlockCache>,
) -> (r: Result<bool>)
    requires
        block_cache matches Some(c) ==> c.wf() && c.spec_stats().hits + table.index_entries().len() < u64::MAX
            && c.spec_stats().misses + table.index_entries().len() < u64::MAX,
    ensures
        block_cache matches Some(c) ==> final(c).wf() && final(c).capacity() == c.capacity()
            && final(c).spec_stats().hits <= c.spec_stats().hits + table.index_entries().len()
            && final(c).spec_stats().misses <= c.spec_stats().misses + table.index_entries().len()
            && forall|k: (u64, u64)| #[trigger] final(c).cached().dom().contains(k) && k.0 != number
                ==> c.cached().dom().contains(k) && final(c).cached()[k] == c.cached()[k],
        block_cache matches Some(c) ==> offsets_name_one_block(table.index_entries())
            && cache_consistent(c.cached(), number, table.image(), table.index_entries())
            ==> cache_consistent(final(c).cached(), number, table.image(), table.index_entries()),
        block_cache is None || (block_cache matches Some(c) && offsets_name_one_block(table.index_entries())
            && cache_consistent(c.cached(), number, table.image(), table.index_entries()))
            ==> match spec_table_entries_from(table.image(), table.index_entries(), 0) {
            Some(es) => r matches Ok(b) && rewrite_answer(es, gc_watermark, drop_tombstones, b),
            None => r is Err,
        },
{
    let entries = match table.entries_with_cache(number, block_cache, true) {
        Ok(es) => es,
        Err(e) => return Err(e),
    };
    let n = entries.len();
    let compacted = compact_entries(entries, gc_watermark, drop_tombstones);
    Ok(compacted.len() != n)
}

/// `s` is the least sequence number among `es`.
pub open spec fn is_least_seq(es: Seq<EntryView>, s: u64) -> bool {
    &&& exists|i: int| 0 <= i < es.len() && (#[trigger] es[i]).0.1 == s
    &&& forall|i: int| 0 <= i < es.len() ==> s <= (#[trigger] es[i]).0.1
}

/// `s` is the greatest sequence number among `es`.
pub open spec fn is_greatest_seq(es: Seq<EntryView>, s: u64) -> bool {
    &&& exists|i: int| 0 <= i < es.len() && (#[trigger] es[i]).0.1 == s
    &&& forall|i: int| 0 <= i < es.len() ==> (#[trigger] es[i]).0.1 <= s
}

/// The description of table file `number` of `file_size` bytes: its smallest and largest
/// keys and the range of sequence numbers it holds. An empty table is `Corruption`, as
/// is one whose properties lack a smallest or largest key.
pub fn file_meta_from_table(number: u64, file_size: u64, reader: &SSTableReader) -> (r: Result<FileMeta>)
    ensures
        match spec_table_entries_from(reader.image(), reader.index_entries(), 0) {
            None => r is Err,
            Some(es) => if es.len() == 0 || reader.props().1 is None || reader.props().2 is None {
                r matches Err(Error::Corruption(_))
            } else {
                r matches Ok(m) && m.number == number && m.file_size == file_size
                    && Some(m.smallest@) == reader.props().1 && Some(m.largest@) == reader.props().2
                    && is_least_seq(es, m.smallest_seq) && is_greatest_seq(es, m.largest_seq)
            },
        },
{
    let entries = match reader.entries() {
        Ok(es) => es,
        Err(e) => return Err(e),
    };
    let ghost es = entries_view(entries@);
    if entries.len() == 0 {
        return Err(corruption("empty SSTable has no sequence range"));
    }
    let mut lo: u64 = entries[0].0.sequence();
    let mut hi: u64 = lo;
    assert(es[0].0.1 == lo);
    let mut i: usize = 1;
    while i < entries.len()
        invariant
            1 <= i <= entries@.len(),
            es == entries_view(entries@),
            exists|j: int| 0 <= j < i && (#[trigger] es[j]).0.1 == lo,
            forall|j: int| 0 <= j < i ==> lo <= (#[trigger] es[j]).0.1,
            exists|j: int| 0 <= j < i && (#[trigger] es[j]).0.1 == hi,
            forall|j: int| 0 <= j < i ==> (#[trigger] es[j]).0.1 <= hi,
        decreases entries@.len() - i,
    {
        let s = entries[i].0.sequence();
        assert(es[i as int].0.1 == s);
        if s < lo {
            lo = s;
        }
        if s > hi {
            hi = s;
        }
        i = i + 1;
    }
    let smallest: InternalKey = match reader.smallest_key() {
        Some(k) => k.duplicate(),
        None => return Err(corruption("empty SSTable has no smallest key")),
    };
    let largest: InternalKey = match reader.largest_key() {
        Some(k) => k.duplicate(),
        None => return Err(corruption("empty SSTable has no largest key")),
    };
    Ok(FileMeta { number, file_size, smallest, largest, smallest_seq: lo, largest_seq: hi })
}

} // verus!

verus! {

/// The entries of the tables, one after the other; `None` when a table cannot be read.
pub open spec fn tables_flat_entries(ts: Seq<TableRef>) -> Option<Seq<EntryView>>
    decreases ts.len(),
{
    if ts.len() == 0 {
        Some(Seq::empty())
    } else {
        match spec_table_entries_from(ts[0].1.image(), ts[0].1.index_entries(), 0) {
            None => None,
            Some(es) => match tables_flat_entries(ts.drop_first()) {
                None => None,
                Some(rest) => Some(es + rest),
            },
        }
    }
}

/// Whether a block cache answers every one of the tables as a read of its file would:
/// tables with the same number are the same table, and each table's cached blocks are
/// the blocks its index names.
pub open spec fn tables_faithful(cache: Map<(u64, u64), Seq<EntryView>>, ts: Seq<TableRef>) -> bool {
    &&& forall|t1: TableRef, t2: TableRef| #[trigger] ts.contains(t1) && #[trigger] ts.contains(t2) && t1.0.number == t2.0.number
        ==> t1.1.image() == t2.1.image() && t1.1.index_entries() == t2.1.index_entries()
    &&& forall|t: TableRef| #[trigger] ts.contains(t) ==> offsets_name_one_block(t.1.index_entries())
        && cache_consistent(cache, t.0.number, t.1.image(), t.1.index_entries())
}

proof fn lemma_tables_faithful_preserved(
    old_cache: Map<(u64, u64), Seq<EntryView>>,
    new_cache: Map<(u64, u64), Seq<EntryView>>,
    ts: Seq<TableRef>,
    t: TableRef,
)
    requires
        tables_faithful(old_cache, ts),
        ts.contains(t),
        cache_consistent(new_cache, t.0.number, t.1.image(), t.1.index_entries()),
        forall|k: (u64, u64)| #[trigger] new_cache.dom().contains(k) && k.0 != t.0.number
            ==> old_cache.dom().contains(k) && new_cache[k] == old_cache[k],
    ensures
        tables_faithful(new_cache, ts),
{
    assert forall|u: TableRef| #[trigger] ts.contains(u) implies offsets_name_one_block(u.1.index_entries())
        && cache_consistent(new_cache, u.0.number, u.1.image(), u.1.index_entries()) by {
        if u.0.number == t.0.number {
            assert(u.1.image() == t.1.image() && u.1.index_entries() == t.1.index_entries());
        } else {
            let idx = u.1.index_entries();
            assert forall|i: int| 0 <= i < idx.len() && #[trigger] new_cache.dom().contains((u.0.number, idx[i].2.offset))
                implies crate::table::reader::spec_block_entries(u.1.image(), idx[i].2) == Some(new_cache[(u.0.number, idx[i].2.offset)]) by {
                assert(old_cache.dom().contains((u.0.number, idx[i].2.offset)));
            }
        }
    }
}

/// The entries a compaction merges: those of each input table in turn, read through
/// `block_cache` (filling it) when one is given. With no cache, or a cache that answers
/// the tables faithfully, they are the tables' entries one after the other, and the
/// cache stays faithful.
pub fn compaction_input_entries(tables: &[TableRef], block_cache: Option<&mut BlockCache>) -> (r: Result<Vec<(InternalKey, ValueRecord)>>)
    requires
        block_cache matches Some(c) ==> c.wf() && c.spec_stats().hits + index_total(tables@) < u64::MAX
            && c.spec_stats().misses + index_total(tables@) < u64::MAX,
    ensures
        block_cache matches Some(c) ==> final(c).wf() && final(c).capacity() == c.capacity(),
        block_cache is None || (block_cache matches Some(c) && tables_faithful(c.cached(), tables@)) ==> match tables_flat_entries(tables@) {
            None => r is Err,
            Some(es) => r matches Ok(v) && entries_view(v@) == es,
        },
        block_cache matches Some(c) ==> (tables_faithful(c.cached(), tables@) ==> tables_faithful(final(c).cached(), tables@)),
{
    let mut unused = BlockCache::new(0);
    let use_cache = block_cache.is_some();
    let cache: &mut BlockCache = match block_cache {
        Some(c) => c,
        None => &mut unused,
    };
    collect_input_entries(tables, cache, use_cache)
}

fn collect_input_entries(tables: &[TableRef], cache: &mut BlockCache, use_cache: bool) -> (r: Result<Vec<(InternalKey, ValueRecord)>>)
    requires
        old(cache).wf(),
        use_cache ==> old(cache).spec_stats().hits + index_total(tables@) < u64::MAX
            && old(cache).spec_stats().misses + index_total(tables@) < u64::MAX,
    ensures
        final(cache).wf(),
        final(cache).capacity() == old(cache).capacity(),
        !use_cache || tables_faithful(old(cache).cached(), tables@) ==> match tables_flat_entries(tables@) {
            None => r is Err,
            Some(es) => r matches Ok(v) && entries_view(v@) == es,
        },
        use_cache && tables_faithful(old(cache).cached(), tables@) ==> tables_faithful(final(cache).cached(), tables@),
{
    let ghost start = *old(cache);
    let ghost good = !use_cache || tables_faithful(start.cached(), tables@);
    let ghost s = tables@;
    let mut out: Vec<(InternalKey, ValueRecord)> = Vec::new();
    let mut i: usize = 0;
    assert(s.skip(0) =~= s);
    assert(entries_view(out@) =~= Seq::<EntryView>::empty());
    while i < tables.len()
        invariant
            s == tables@,
            start == *old(cache),
            i <= s.len(),
            cache.wf(),
            cache.capacity() == start.capacity(),
            use_cache ==> cache.spec_stats().hits + index_total(s.skip(i as int)) < u64::MAX,
            use_cache ==> cache.spec_stats().misses + index_total(s.skip(i as int)) < u64::MAX,
            good == (!use_cache || tables_faithful(start.cached(), s)),
            good && use_cache ==> tables_faithful(cache.cached(), s),
            good ==> tables_flat_entries(s) == match tables_flat_entries(s.skip(i as int)) {
                Some(rest) => Some(entries_view(out@) + rest),
                None => None::<Seq<EntryView>>,
            },
        decreases s.len() - i,
    {
        let (meta, table) = &tables[i];
        let ghost t = s[i as int];
        proof {
            assert(s.contains(t));
            assert(s.skip(i as int)[0] == t);
            assert(s.skip(i as int).drop_first() =~= s.skip(i + 1));
            assert(index_total(s.skip(i as int)) == t.1.index_entries().len() + index_total(s.skip(i + 1)));
        }
        let ghost before = cache.cached();
        let got = table.entries_with_cache(meta.number, Some(&mut *cache), use_cache);
        proof {
            if good && use_cache {
                lemma_tables_faithful_preserved(before, cache.cached(), s, t);
            }
        }
        match got {
            Err(e) => return Err(e),
            Ok(entries) => {
                let ghost prev = entries_view(out@);
                let ghost ev = entries_view(entries@);
                let mut more = entries;
                out.append(&mut more);
                proof {
                    assert(entries_view(out@) =~= prev + ev);
                    if good {
                        match tables_flat_entries(s.skip(i + 1)) {
                            Some(rest) => {
                                assert(prev + (ev + rest) =~= prev + ev + rest);
                            },
                            None => {},
                        }
                    }
                }
            },
        }
        i = i + 1;
    }
    proof {
        assert(s.skip(i as int) =~= Seq::<TableRef>::empty());
        assert(entries_view(out@) + Seq::<EntryView>::empty() =~= entries_view(out@));
    }
    Ok(out)
}

} // verus!

verus! {

/// What a compaction of `tables` writes: their entries merged in internal-key order and
/// compacted at `gc_watermark`, dropping tombstones if `drop_tombstones`.
pub fn compaction_output_entries(
    tables: &[TableRef],
    gc_watermark: u64,
    drop_tombstones: bool,
    block_cache: Option<&mut BlockCache>,
) -> (r: Result<Vec<(InternalKey, ValueRecord)>>)
    requires
        block_cache matches Some(c) ==> c.wf() && c.spec_stats().hits + index_total(tables@) < u64::MAX
            && c.spec_stats().misses + index_total(tables@) < u64::MAX,
    ensures
        block_cache matches Some(c) ==> final(c).wf() && final(c).capacity() == c.capacity(),
        block_cache is None || (block_cache matches Some(c) && tables_faithful(c.cached(), tables@)) ==> match tables_flat_entries(tables@) {
            None => r is Err,
            Some(es) => r matches Ok(v) && compacted_from(es, gc_watermark, drop_tombstones, entries_view(v@)),
        },
        block_cache matches Some(c) ==> (tables_faithful(c.cached(), tables@) ==> tables_faithful(final(c).cached(), tables@)),
{
    let entries = match compaction_input_entries(tables, block_cache) {
        Ok(es) => es,
        Err(e) => return Err(e),
    };
    Ok(compact_entries(entries, gc_watermark, drop_tombstones))
}

} // verus!

verus! {

/// What a compaction run does with its task.
#[derive(Debug)]
pub enum CompactionPlan {
    /// The task has no input files.
    Nothing,
    /// Move the single input file down to the output level as it is.
    Move { from_level: usize, to_level: usize, file: FileMeta },
    /// Write these entries to the output level, and remove these files, each from its
    /// level.
    Rewrite { entries: Vec<(InternalKey, ValueRecord)>, deletes: Vec<(usize, u64)> },
}

/// The level an input file of `task` is removed from.
pub open spec fn spec_input_file_level(task: CompactionTask, number: u64) -> usize {
    if exists|i: int| 0 <= i < task.input_files@.len() && (#[trigger] task.input_files@[i]).number == number {
        task.input_level
    } else {
        task.output_level
    }
}

/// The input files of a task: its own, then the overlapping files of the output level.
pub open spec fn task_files(task: CompactionTask) -> Seq<FileMeta> {
    task.input_files@ + task.overlap_files@
}

/// The files a rewrite removes: every input file of the task, each from its level.
pub open spec fn task_deletes(task: CompactionTask) -> Seq<(usize, u64)> {
    task_files(task).map_values(|f: FileMeta| (spec_input_file_level(task, f.number), f.number))
}

/// Whether the task moves its file without rewriting it, up to reading it.
pub open spec fn spec_is_trivial_move(task: CompactionTask) -> bool {
    task.input_level > 0 && task.input_files@.len() == 1 && task.overlap_files@.len() == 0
}

/// What rewriting the tables gives: `None` when one cannot be read.
pub open spec fn rewrite_outcome(r: Result<CompactionPlan>, task: CompactionTask, inputs: Seq<TableRef>, gc: u64, drop: bool) -> bool {
    match tables_flat_entries(inputs) {
        None => r is Err,
        Some(all) => r matches Ok(CompactionPlan::Rewrite { entries, deletes })
            && compacted_from(all, gc, drop, entries_view(entries@))
            && deletes@ == task_deletes(task),
    }
}

/// What a compaction run of `task` over `inputs` gives, at watermark `gc`, dropping
/// tombstones if `drop`: for a trivial move, a move when compacting the file would
/// remove nothing; otherwise the rewrite.
pub open spec fn plan_outcome(r: Result<CompactionPlan>, task: CompactionTask, inputs: Seq<TableRef>, gc: u64, drop: bool) -> bool {
    if spec_is_trivial_move(task) {
        match spec_table_entries_from(inputs[0].1.image(), inputs[0].1.index_entries(), 0) {
            None => r is Err,
            Some(es) => exists|b: bool| #[trigger] rewrite_answer(es, gc, drop, b) && if b {
                rewrite_outcome(r, task, inputs, gc, drop)
            } else {
                r matches Ok(CompactionPlan::Move { from_level, to_level, file }) && from_level == task.input_level
                    && to_level == task.output_level && file@ == task.input_files@[0]@
            },
        }
    } else {
        rewrite_outcome(r, task, inputs, gc, drop)
    }
}

/// Plans a compaction run of `task` over `inputs`, the opened tables of the task's input
/// files in the same order: nothing for a task without inputs; a move of the file when the
/// task is a trivial move and compacting the file would remove nothing; otherwise the
/// inputs' entries merged and compacted at the garbage-collection watermark (dropping
/// tombstones when no deeper level overlaps the task's range), and the input files to
/// remove. Tables are read through `block_cache` when one is given.
pub fn plan_compaction(
    task: &CompactionTask,
    levels: &[Vec<FileMeta>],
    watermark: &Watermark,
    last_sequence: u64,
    inputs: &[TableRef],
    block_cache: Option<&mut BlockCache>,
) -> (r: Result<CompactionPlan>)
    requires
        watermark.wf(),
        inputs@.len() == task_files(*task).len(),
        forall|i: int| 0 <= i < inputs@.len() ==> (#[trigger] inputs@[i]).0.number == task_files(*task)[i].number,
        block_cache matches Some(c) ==> c.wf() && c.spec_stats().hits + 2 * index_total(inputs@) < u64::MAX
            && c.spec_stats().misses + 2 * index_total(inputs@) < u64::MAX,
    ensures
        block_cache matches Some(c) ==> final(c).wf() && final(c).capacity() == c.capacity(),
        task.input_files@.len() == 0 ==> r matches Ok(CompactionPlan::Nothing),
        task.input_files@.len() > 0 && (block_cache is None || (block_cache matches Some(c) && tables_faithful(c.cached(), inputs@))) ==> {
            let gc = spec_gc_watermark(watermark.counts(), last_sequence);
            let drop = !deeper_overlap(levels_view(levels@), task.output_level as nat, task.smallest_user_key@, task.largest_user_key@);
            plan_outcome(r, *task, inputs@, gc, drop)
        },
{
    if task.input_files.len() == 0 {
        return Ok(CompactionPlan::Nothing);
    }
    let gc = gc_watermark(watermark, last_sequence);
    let drop = can_drop_tombstones(levels, task);
    let use_cache = block_cache.is_some();
    let mut unused = BlockCache::new(0);
    let cache: &mut BlockCache = match block_cache {
        Some(c) => c,
        None => &mut unused,
    };
    plan_with_cache(task, gc, drop, inputs, cache, use_cache)
}

fn plan_with_cache(
    task: &CompactionTask,
    gc: u64,
    drop: bool,
    inputs: &[TableRef],
    cache: &mut BlockCache,
    use_cache: bool,
) -> (r: Result<CompactionPlan>)
    requires
        task.input_files@.len() > 0,
        inputs@.len() == task_files(*task).len(),
        forall|i: int| 0 <= i < inputs@.len() ==> (#[trigger] inputs@[i]).0.number == task_files(*task)[i].number,
        old(cache).wf(),
        use_cache ==> old(cache).spec_stats().hits + 2 * index_total(inputs@) < u64::MAX
            && old(cache).spec_stats().misses + 2 * index_total(inputs@) < u64::MAX,
    ensures
        final(cache).wf(),
        final(cache).capacity() == old(cache).capacity(),
        !use_cache || tables_faithful(old(cache).cached(), inputs@) ==> plan_outcome(r, *task, inputs@, gc, drop),
{
    let ghost start = *old(cache);
    let ghost good = !use_cache || tables_faithful(start.cached(), inputs@);
    if task.is_trivial_move() {
        let (meta, table) = &inputs[0];
        proof {
            assert(inputs@.contains(inputs@[0]));
            assert(task_files(*task)[0] == task.input_files@[0]);
            assert(index_total(inputs@) == inputs@[0].1.index_entries().len() + index_total(inputs@.drop_first()));
        }
        let ghost before = cache.cached();
        let needs = match trivial_move_needs_rewrite(table, meta.number, gc, drop, if use_cache { Some(&mut *cache) } else { None }) {
            Ok(b) => b,
            Err(e) => return Err(e),
        };
        proof {
            if good && use_cache {
                lemma_tables_faithful_preserved(before, cache.cached(), inputs@, inputs@[0]);
            }
        }
        if !needs {
            proof {
                if good {
                    assert(rewrite_answer(spec_table_entries_from(inputs@[0].1.image(), inputs@[0].1.index_entries(), 0).unwrap(), gc, drop, false));
                }
            }
            return Ok(CompactionPlan::Move {
                from_level: task.input_level,
                to_level: task.output_level,
                file: task.input_files[0].duplicate(),
            });
        }
        proof {
            if good {
                assert(rewrite_answer(spec_table_entries_from(inputs@[0].1.image(), inputs@[0].1.index_entries(), 0).unwrap(), gc, drop, true));
            }
        }
        return rewrite_plan(task, gc, drop, inputs, cache, use_cache);
    }
    rewrite_plan(task, gc, drop, inputs, cache, use_cache)
}

fn rewrite_plan(
    task: &CompactionTask,
    gc: u64,
    drop: bool,
    inputs: &[TableRef],
    cache: &mut BlockCache,
    use_cache: bool,
) -> (r: Result<CompactionPlan>)
    requires
        old(cache).wf(),
        use_cache ==> old(cache).spec_stats().hits + index_total(inputs@) < u64::MAX
            && old(cache).spec_stats().misses + index_total(inputs@) < u64::MAX,
    ensures
        final(cache).wf(),
        final(cache).capacity() == old(cache).capacity(),
        !use_cache || tables_faithful(old(cache).cached(), inputs@) ==> rewrite_outcome(r, *task, inputs@, gc, drop),
        use_cache && tables_faithful(old(cache).cached(), inputs@) ==> tables_faithful(final(cache).cached(), inputs@),
{
    let entries = match compaction_output_entries(inputs, gc, drop, if use_cache { Some(&mut *cache) } else { None }) {
        Ok(es) => es,
        Err(e) => return Err(e),
    };
    let files = task.all_input_files();
    let ghost fs = task_files(*task);
    let mut deletes: Vec<(usize, u64)> = Vec::new();
    let mut i: usize = 0;
    assert(metas_view(files@) == metas_view(task.input_files@) + metas_view(task.overlap_files@));
    while i < files.len()
        invariant
            i <= files@.len(),
            metas_view(files@) == metas_view(task.input_files@) + metas_view(task.overlap_files@),
            fs == task_files(*task),
            deletes@.len() == i,
            forall|k: int| 0 <= k < i ==> #[trigger] deletes@[k] == (spec_input_file_level(*task, fs[k].number), fs[k].number),
        decreases files@.len() - i,
    {
        assert(metas_view(files@)[i as int] == files@[i as int]@);
        assert(files@.len() == fs.len()) by {
            assert(metas_view(files@).len() == files@.len());
        }
        assert(files@[i as int].number == fs[i as int].number) by {
            if i < task.input_files@.len() {
                assert(metas_view(task.input_files@)[i as int] == task.input_files@[i as int]@);
            } else {
                assert(metas_view(task.overlap_files@)[i - task.input_files@.len()] == task.overlap_files@[i - task.input_files@.len()]@);
            }
        }
        let number = files[i].number;
        let level = input_file_level(task, number);
        deletes.push((level, number));
        i = i + 1;
    }
    assert(files@.len() == fs.len()) by {
        assert(metas_view(files@).len() == files@.len());
    }
    assert(deletes@ =~= task_deletes(*task));
    Ok(CompactionPlan::Rewrite { entries, deletes })
}

} // verus!
