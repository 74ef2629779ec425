use std::sync::Arc;

use tylsmdb::bound::KeyBound;
use tylsmdb::cache::BlockCache;
use tylsmdb::compact::picker::{file_overlaps_range, pick_l0_manual, pick_level, pick_manual, task_for_files, user_key_range};
use tylsmdb::compact::plan::{
    can_drop_tombstones, compaction_input_entries, compaction_output_entries, file_meta_from_table,
    gc_watermark, input_file_level, plan_compaction, trivial_move_needs_rewrite, CompactionPlan,
};
use tylsmdb::db_state::TableRef;
use tylsmdb::key::{InternalKey, ValueType};
use tylsmdb::memtable::ValueRecord;
use tylsmdb::mvcc::watermark::Watermark;
use tylsmdb::table::builder::SSTableBuilder;
use tylsmdb::table::reader::SSTableReader;
use tylsmdb::version::FileMeta;
use tylsmdb::Error;

fn ikey(key: &[u8], seq: u64, t: ValueType) -> InternalKey {
    InternalKey::new(key.to_vec(), seq, t)
}

fn meta(number: u64, lo: &[u8], hi: &[u8]) -> FileMeta {
    FileMeta {
        number,
        file_size: 100,
        smallest: ikey(lo, 5, ValueType::Put),
        largest: ikey(hi, 1, ValueType::Put),
        smallest_seq: 1,
        largest_seq: 5,
    }
}

fn numbers(files: &[FileMeta]) -> Vec<u64> {
    files.iter().map(|f| f.number).collect()
}

#[test]
fn file_range_overlap_respects_bound_kinds() {
    let m = meta(1, b"c", b"f");
    assert!(file_overlaps_range(&m, &KeyBound::Included(b"f".to_vec()), &KeyBound::Unbounded));
    assert!(!file_overlaps_range(&m, &KeyBound::Excluded(b"f".to_vec()), &KeyBound::Unbounded));
    assert!(file_overlaps_range(&m, &KeyBound::Unbounded, &KeyBound::Included(b"c".to_vec())));
    assert!(!file_overlaps_range(&m, &KeyBound::Unbounded, &KeyBound::Excluded(b"c".to_vec())));
}

#[test]
fn user_key_range_spans_all_files() {
    let files = vec![meta(1, b"d", b"f"), meta(2, b"a", b"c"), meta(3, b"b", b"z")];
    assert_eq!(user_key_range(&files), (b"a".to_vec(), b"z".to_vec()));
}

#[test]
fn task_collects_overlapping_files_of_the_next_level() {
    let levels = vec![vec![], vec![meta(10, b"a", b"b"), meta(11, b"c", b"e"), meta(12, b"x", b"y")], vec![]];
    let task = task_for_files(&levels, 0, vec![meta(1, b"b", b"d")], false);
    assert_eq!(task.output_level, 1);
    assert_eq!(numbers(&task.overlap_files), vec![10, 11]);
    assert_eq!((task.smallest_user_key.clone(), task.largest_user_key.clone()), (b"b".to_vec(), b"d".to_vec()));
    // The last level compacts into itself.
    let last = task_for_files(&levels, 2, vec![meta(2, b"a", b"a")], false);
    assert_eq!(last.output_level, 2);
    assert!(last.overlap_files.is_empty());
}

#[test]
fn manual_picks_prefer_level_zero() {
    let l0 = vec![meta(1, b"a", b"c"), meta(2, b"m", b"p")];
    let levels = vec![vec![], vec![meta(10, b"d", b"f")], vec![meta(20, b"a", b"z")]];
    let task = pick_manual(&l0, &levels, &KeyBound::Included(b"n".to_vec()), &KeyBound::Unbounded).expect("l0 task");
    assert_eq!(task.input_level, 0);
    assert_eq!(numbers(&task.input_files), vec![2]);
    assert!(task.is_manual);

    let task = pick_manual(&l0, &levels, &KeyBound::Included(b"e".to_vec()), &KeyBound::Included(b"e".to_vec()))
        .expect("level task");
    assert_eq!(task.input_level, 1);
    assert_eq!(numbers(&task.input_files), vec![10]);
    assert_eq!(numbers(&task.overlap_files), vec![20]);

    // Files of the last level are never picked manually.
    assert!(pick_manual(&l0, &levels, &KeyBound::Included(b"q".to_vec()), &KeyBound::Included(b"r".to_vec())).is_none());
    assert!(pick_l0_manual(&l0, &levels, &KeyBound::Included(b"q".to_vec()), &KeyBound::Unbounded).is_none());
}

#[test]
fn level_picks() {
    let l0 = vec![meta(1, b"a", b"c")];
    let levels = vec![vec![], vec![meta(10, b"d", b"f"), meta(11, b"g", b"h")], vec![]];
    let t0 = pick_level(&l0, &levels, 0, false).expect("level 0");
    assert_eq!(numbers(&t0.input_files), vec![1]);
    let t1 = pick_level(&l0, &levels, 1, true).expect("level 1");
    assert_eq!(numbers(&t1.input_files), vec![10]);
    assert!(t1.is_manual);
    assert!(pick_level(&[], &levels, 0, false).is_none());
    assert!(pick_level(&l0, &levels, 2, false).is_none());
    assert!(pick_level(&l0, &levels, 7, false).is_none());
}

#[test]
fn tombstones_drop_only_without_deeper_overlap() {
    let levels = vec![vec![], vec![], vec![meta(20, b"x", b"z")]];
    let task = task_for_files(&levels, 0, vec![meta(1, b"a", b"c")], false);
    assert!(can_drop_tombstones(&levels, &task));
    let task = task_for_files(&levels, 0, vec![meta(1, b"a", b"y")], false);
    assert!(!can_drop_tombstones(&levels, &task));
    assert_eq!(input_file_level(&task, 1), 0);
    assert_eq!(input_file_level(&task, 20), 1);
}

#[test]
fn watermark_or_last_sequence() {
    let mut w = Watermark::new();
    assert_eq!(gc_watermark(&w, 42), 42);
    w.add(9);
    w.add(5);
    assert_eq!(gc_watermark(&w, 42), 5);
}

fn table(number: u64, entries: &[(InternalKey, ValueRecord)]) -> TableRef {
    let mut builder = SSTableBuilder::new(64);
    for (k, v) in entries {
        builder.add(k.clone(), v).expect("add");
    }
    let image = builder.finish().expect("finish");
    let size = image.len() as u64;
    let reader = SSTableReader::open(image).expect("open");
    let m = file_meta_from_table(number, size, &reader).expect("meta");
    (m, Arc::new(reader))
}

#[test]
fn file_meta_describes_the_table() {
    let (m, _) = table(
        7,
        &[
            (ikey(b"a", 4, ValueType::Put), ValueRecord::Put(b"1".to_vec())),
            (ikey(b"b", 9, ValueType::Delete), ValueRecord::Delete),
            (ikey(b"c", 2, ValueType::Put), ValueRecord::Put(b"3".to_vec())),
        ],
    );
    assert_eq!(m.number, 7);
    assert_eq!(m.smallest, ikey(b"a", 4, ValueType::Put));
    assert_eq!(m.largest, ikey(b"c", 2, ValueType::Put));
    assert_eq!((m.smallest_seq, m.largest_seq), (2, 9));
}

#[test]
fn empty_table_has_no_description() {
    let image = SSTableBuilder::new(64).finish().expect("finish");
    let reader = SSTableReader::open(image).expect("open");
    assert!(matches!(file_meta_from_table(1, 10, &reader), Err(Error::Corruption(_))));
}

#[test]
fn compaction_merges_inputs_and_keeps_newest() {
    let newer = table(1, &[
        (ikey(b"a", 8, ValueType::Put), ValueRecord::Put(b"a8".to_vec())),
        (ikey(b"c", 7, ValueType::Delete), ValueRecord::Delete),
    ]);
    let older = table(2, &[
        (ikey(b"a", 3, ValueType::Put), ValueRecord::Put(b"a3".to_vec())),
        (ikey(b"b", 2, ValueType::Put), ValueRecord::Put(b"b2".to_vec())),
        (ikey(b"c", 1, ValueType::Put), ValueRecord::Put(b"c1".to_vec())),
    ]);
    let inputs = vec![newer.clone(), older.clone()];
    let all = compaction_input_entries(&inputs, None).expect("read inputs");
    assert_eq!(all.len(), 5);
    let mut cache = BlockCache::new(1 << 20);
    let out = compaction_output_entries(&inputs, 10, true, Some(&mut cache)).expect("compact");
    let keys: Vec<(Vec<u8>, u64)> = out.iter().map(|(k, _)| (k.user_key().to_vec(), k.sequence())).collect();
    assert_eq!(keys, vec![(b"a".to_vec(), 8), (b"b".to_vec(), 2)]);
    assert!(trivial_move_needs_rewrite(&older.1, 2, 10, false, None).expect("check") == false);
    let dup = table(3, &[
        (ikey(b"k", 5, ValueType::Put), ValueRecord::Put(b"new".to_vec())),
        (ikey(b"k", 4, ValueType::Put), ValueRecord::Put(b"old".to_vec())),
    ]);
    assert!(trivial_move_needs_rewrite(&dup.1, 3, 10, false, Some(&mut cache)).expect("check"));
    assert!(!trivial_move_needs_rewrite(&dup.1, 3, 4, false, None).expect("check"));
}

#[test]
fn compaction_plans() {
    let empty_task = task_for_files(&[vec![], vec![], vec![]], 1, vec![meta(1, b"a", b"b")], false);
    let mut no_inputs = empty_task.clone();
    no_inputs.input_files.clear();
    let w = Watermark::new();
    assert!(matches!(plan_compaction(&no_inputs, &[], &w, 10, &[], None), Ok(CompactionPlan::Nothing)));

    // A single level-1 file with nothing to collapse moves down as it is.
    let clean = table(5, &[(ikey(b"a", 3, ValueType::Put), ValueRecord::Put(b"x".to_vec()))]);
    let levels = vec![vec![], vec![clean.0.clone()], vec![]];
    let task = task_for_files(&levels, 1, vec![clean.0.clone()], false);
    match plan_compaction(&task, &levels, &w, 10, &[clean.clone()], None).expect("plan") {
        CompactionPlan::Move { from_level, to_level, file } => {
            assert_eq!((from_level, to_level, file.number), (1, 2, 5));
        }
        other => panic!("unexpected {other:?}"),
    }

    // Two versions of one key below the watermark must be rewritten.
    let dup = table(6, &[
        (ikey(b"k", 5, ValueType::Put), ValueRecord::Put(b"new".to_vec())),
        (ikey(b"k", 4, ValueType::Put), ValueRecord::Put(b"old".to_vec())),
    ]);
    let levels = vec![vec![], vec![dup.0.clone()], vec![]];
    let task = task_for_files(&levels, 1, vec![dup.0.clone()], false);
    let mut cache = BlockCache::new(1 << 20);
    match plan_compaction(&task, &levels, &w, 10, &[dup.clone()], Some(&mut cache)).expect("plan") {
        CompactionPlan::Rewrite { entries, deletes } => {
            assert_eq!(entries.len(), 1);
            assert_eq!(entries[0].1, ValueRecord::Put(b"new".to_vec()));
            assert_eq!(deletes, vec![(1, 6)]);
        }
        other => panic!("unexpected {other:?}"),
    }
}
