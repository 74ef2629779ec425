use std::sync::Arc;

use tylsmdb::bound::KeyBound;
use tylsmdb::cache::{BlockCache, CacheStats, TableCache};
use tylsmdb::iterator::{DBIterator, EntryIterator};
use tylsmdb::compact::executor::compact_entries;
use tylsmdb::compact::task::CompactionTask;
use tylsmdb::key::{InternalKey, ValueType};
use tylsmdb::memtable::ValueRecord;
use tylsmdb::metrics::{Metrics, MetricsSnapshot};
use tylsmdb::table::block::Block;
use tylsmdb::table::block_builder::BlockBuilder;
use tylsmdb::table::builder::SSTableBuilder;
use tylsmdb::version::FileMeta;

fn ikey(key: &[u8], seq: u64, t: ValueType) -> InternalKey {
    InternalKey::new(key.to_vec(), seq, t)
}

fn one_block(key: &[u8]) -> Arc<Block> {
    let mut builder = BlockBuilder::new(16);
    builder.add(ikey(key, 1, ValueType::Put), &ValueRecord::Put(b"v".to_vec()));
    Arc::new(Block::decode(&builder.finish()).expect("decode block"))
}

#[test]
fn block_cache_counts_hits_and_misses() {
    let mut cache = BlockCache::new(4096 * 2);
    assert!(cache.get(1, 0).is_none());
    cache.insert(1, 0, one_block(b"a"));
    let hit = cache.get(1, 0).expect("cached block");
    assert_eq!(hit.entries()[0].0.user_key(), b"a");
    assert_eq!(cache.stats(), CacheStats { hits: 1, misses: 1 });
}

#[test]
fn full_block_cache_evicts_one_entry() {
    let mut cache = BlockCache::new(0);
    cache.insert(1, 0, one_block(b"a"));
    cache.insert(2, 0, one_block(b"b"));
    assert!(cache.get(1, 0).is_none());
    assert!(cache.get(2, 0).is_some());
}

fn small_table(key: &[u8]) -> Vec<u8> {
    let mut builder = SSTableBuilder::new(64);
    builder.add(ikey(key, 1, ValueType::Put), &ValueRecord::Put(b"v".to_vec())).expect("add");
    builder.finish().expect("finish")
}

#[test]
fn table_cache_keeps_opened_tables() {
    let mut cache = TableCache::new(1);
    assert!(cache.lookup(3).is_none());
    let table = cache.get_or_open(3, small_table(b"x")).expect("open");
    assert!(Arc::ptr_eq(&table, &cache.lookup(3).expect("cached")));
    // A second open of the same number returns the cached table, not the new image.
    let again = cache.get_or_open(3, small_table(b"y")).expect("cached open");
    assert_eq!(again.smallest_key().expect("smallest").user_key(), b"x");
    // A new number evicts the only entry.
    cache.get_or_open(4, small_table(b"z")).expect("open 4");
    assert!(cache.lookup(3).is_none());
    assert!(cache.get_or_open(5, vec![1, 2, 3]).is_err());
}

#[test]
fn metrics_snapshot_reports_counters() {
    let mut metrics = Metrics::new();
    metrics.record_user_write(10);
    metrics.record_user_write(5);
    metrics.record_wal_write(20);
    metrics.record_wal_sync();
    metrics.record_sst_write(30);
    metrics.record_compaction_read(40);
    metrics.record_compaction_write(50);
    metrics.record_subcompaction_tasks(3);
    metrics.record_subcompaction_tasks(2);
    metrics.record_bloom_useful();
    metrics.record_bloom_false_positive();
    metrics.record_bloom_false_positive();
    let snap = metrics.snapshot(CacheStats { hits: 7, misses: 8 });
    assert_eq!(
        snap,
        MetricsSnapshot {
            user_write_bytes: 15,
            wal_write_bytes: 20,
            wal_sync_count: 1,
            sst_write_bytes: 30,
            compaction_read_bytes: 40,
            compaction_write_bytes: 50,
            subcompaction_tasks: 5,
            max_subcompaction_parallelism: 3,
            block_cache_hits: 7,
            block_cache_misses: 8,
            bloom_useful: 1,
            bloom_false_positive: 2,
        }
    );
}

#[test]
fn metrics_counters_wrap() {
    let mut metrics = Metrics::new();
    metrics.record_user_write(u64::MAX);
    metrics.record_user_write(2);
    assert_eq!(metrics.snapshot(CacheStats::default()).user_write_bytes, 1);
}

#[test]
fn compaction_keeps_newest_below_watermark() {
    let entries = vec![
        (ikey(b"a", 1, ValueType::Put), ValueRecord::Put(b"a1".to_vec())),
        (ikey(b"a", 9, ValueType::Put), ValueRecord::Put(b"a9".to_vec())),
        (ikey(b"a", 3, ValueType::Put), ValueRecord::Put(b"a3".to_vec())),
        (ikey(b"b", 2, ValueType::Delete), ValueRecord::Delete),
        (ikey(b"b", 1, ValueType::Put), ValueRecord::Put(b"b1".to_vec())),
    ];
    let kept = compact_entries(entries.clone(), 5, false);
    let keys: Vec<(Vec<u8>, u64)> = kept.iter().map(|(k, _)| (k.user_key().to_vec(), k.sequence())).collect();
    assert_eq!(keys, vec![(b"a".to_vec(), 9), (b"a".to_vec(), 3), (b"b".to_vec(), 2)]);

    let dropped = compact_entries(entries, 5, true);
    let keys: Vec<(Vec<u8>, u64)> = dropped.iter().map(|(k, _)| (k.user_key().to_vec(), k.sequence())).collect();
    assert_eq!(keys, vec![(b"a".to_vec(), 9), (b"a".to_vec(), 3)]);
}

fn meta(number: u64, lo: &[u8], hi: &[u8]) -> FileMeta {
    FileMeta {
        number,
        file_size: 100,
        smallest: ikey(lo, 5, ValueType::Put),
        largest: ikey(hi, 1, ValueType::Put),
        smallest_seq: 1,
        largest_seq: 5,
    }
}

#[test]
fn compaction_task_inputs_and_trivial_moves() {
    let task = CompactionTask {
        input_level: 1,
        output_level: 2,
        input_files: vec![meta(1, b"a", b"c")],
        overlap_files: vec![],
        smallest_user_key: b"a".to_vec(),
        largest_user_key: b"c".to_vec(),
        is_manual: false,
    };
    assert!(task.is_trivial_move());
    let mut l0 = task.clone();
    l0.input_level = 0;
    assert!(!l0.is_trivial_move());
    let mut overlapping = task.clone();
    overlapping.overlap_files.push(meta(2, b"b", b"d"));
    assert!(!overlapping.is_trivial_move());
    let numbers: Vec<u64> = overlapping.all_input_files().iter().map(|m| m.number).collect();
    assert_eq!(numbers, vec![1, 2]);
}

#[test]
fn file_meta_overlaps() {
    let m = meta(1, b"c", b"f");
    assert!(m.overlaps_user_key(b"c"));
    assert!(m.overlaps_user_key(b"e"));
    assert!(!m.overlaps_user_key(b"g"));
    assert!(m.user_key_overlaps_range(b"a", b"c"));
    assert!(m.user_key_overlaps_range(b"f", b"z"));
    assert!(!m.user_key_overlaps_range(b"g", b"z"));
    assert_eq!(m.duplicate().number, 1);
}

#[test]
fn compaction_keeps_reads_at_or_above_the_watermark() {
    let entries = vec![
        (ikey(b"a", 9, ValueType::Put), ValueRecord::Put(b"a9".to_vec())),
        (ikey(b"a", 3, ValueType::Put), ValueRecord::Put(b"a3".to_vec())),
        (ikey(b"a", 1, ValueType::Delete), ValueRecord::Delete),
        (ikey(b"b", 4, ValueType::Delete), ValueRecord::Delete),
        (ikey(b"b", 2, ValueType::Put), ValueRecord::Put(b"b2".to_vec())),
        (ikey(b"c", 5, ValueType::Put), ValueRecord::Put(b"c5".to_vec())),
    ];
    for drop in [false, true] {
        let compacted = compact_entries(entries.clone(), 5, drop);
        for read_seq in [5u64, 6, 9, 100] {
            let mut before = DBIterator::new(EntryIterator::new(entries.clone()), KeyBound::Unbounded, KeyBound::Unbounded, read_seq);
            let mut after = DBIterator::new(EntryIterator::new(compacted.clone()), KeyBound::Unbounded, KeyBound::Unbounded, read_seq);
            assert_eq!(before.collect().expect("before"), after.collect().expect("after"));
        }
    }
}

#[test]
fn compaction_sort_keeps_input_order_of_equal_keys() {
    let first = (ikey(b"k", 7, ValueType::Put), ValueRecord::Put(b"first".to_vec()));
    let second = (ikey(b"k", 7, ValueType::Put), ValueRecord::Put(b"second".to_vec()));
    let older = (ikey(b"k", 2, ValueType::Put), ValueRecord::Put(b"older".to_vec()));
    let out = compact_entries(vec![older.clone(), first.clone(), second.clone()], 0, false);
    let values: Vec<ValueRecord> = out.into_iter().map(|(_, v)| v).collect();
    assert_eq!(
        values,
        vec![ValueRecord::Put(b"first".to_vec()), ValueRecord::Put(b"second".to_vec()), ValueRecord::Put(b"older".to_vec())]
    );
    let out = compact_entries(vec![second, first, older], 0, false);
    let values: Vec<ValueRecord> = out.into_iter().map(|(_, v)| v).collect();
    assert_eq!(
        values,
        vec![ValueRecord::Put(b"second".to_vec()), ValueRecord::Put(b"first".to_vec()), ValueRecord::Put(b"older".to_vec())]
    );
}
