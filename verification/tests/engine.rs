use std::sync::Arc;

use tylsmdb::bound::KeyBound;
use tylsmdb::cache::{BlockCache, CacheStats};
use tylsmdb::db_state::{
    any_entry_after, apply_batch, apply_commit, ensure_no_transaction_conflicts,
    freeze_mutable_if_needed, get_opt, install_l0_table, level_file_counts, prepare_commit, restore_flush_memtable,
    scan_opt, take_oldest_flushable_memtable, DbState, FlushSource, KeyFilter, TableRef,
};
use tylsmdb::key::{InternalKey, ValueType};
use tylsmdb::memtable::{MemTableKind, ValueRecord};
use tylsmdb::metrics::Metrics;
use tylsmdb::mvcc::engine_reads::{transaction_get, transaction_scan};
use tylsmdb::mvcc::transaction::Transaction;
use tylsmdb::table::builder::SSTableBuilder;
use tylsmdb::table::reader::SSTableReader;
use tylsmdb::version::FileMeta;
use tylsmdb::write_path::{
    batch_user_write_bytes, batch_write_keys, entries_size_fits, estimate_entry_size, split_compaction_entries,
    wal_record_bytes,
};
use tylsmdb::{Error, ReadOptions, TransactionOptions, WriteBatch};

fn ikey(key: &[u8], seq: u64, t: ValueType) -> InternalKey {
    InternalKey::new(key.to_vec(), seq, t)
}

/// A level-0 table holding `k1 = t1 @1`, `k2 deleted @2`, `k3 = t3 @3`.
fn l0_table() -> TableRef {
    let mut builder = SSTableBuilder::new(64);
    builder.add(ikey(b"k1", 1, ValueType::Put), &ValueRecord::Put(b"t1".to_vec())).expect("add");
    builder.add(ikey(b"k2", 2, ValueType::Delete), &ValueRecord::Delete).expect("add");
    builder.add(ikey(b"k3", 3, ValueType::Put), &ValueRecord::Put(b"t3".to_vec())).expect("add");
    let image = builder.finish().expect("finish");
    let size = image.len() as u64;
    let reader = SSTableReader::open(image).expect("open");
    let meta = FileMeta {
        number: 1,
        file_size: size,
        smallest: ikey(b"k1", 1, ValueType::Put),
        largest: ikey(b"k3", 3, ValueType::Put),
        smallest_seq: 1,
        largest_seq: 3,
    };
    (meta, Arc::new(reader))
}

fn state_with_table(kind: MemTableKind) -> DbState {
    DbState::new(kind, vec![l0_table()], vec![], 3)
}

fn read(state: &DbState, key: &[u8], opts: &ReadOptions, cache: Option<&mut BlockCache>) -> Option<Vec<u8>> {
    let mut metrics = Metrics::new();
    get_opt(state, key, opts, cache, &mut metrics).expect("get")
}

#[test]
fn writes_shadow_table_values_and_reads_see_their_snapshot() {
    for kind in [MemTableKind::BTree, MemTableKind::SkipList] {
        let mut state = state_with_table(kind);
        let mut batch = WriteBatch::new();
        batch.put(b"k1".to_vec(), b"m1".to_vec());
        batch.delete(b"k3".to_vec());
        batch.put(b"k4".to_vec(), b"m4".to_vec());
        apply_batch(&mut state, 4, &batch);
        assert_eq!(state.last_sequence, 6);

        let latest = ReadOptions::default();
        assert_eq!(read(&state, b"k1", &latest, None), Some(b"m1".to_vec()));
        assert_eq!(read(&state, b"k2", &latest, None), None);
        assert_eq!(read(&state, b"k3", &latest, None), None);
        assert_eq!(read(&state, b"k4", &latest, None), Some(b"m4".to_vec()));

        let before = state_with_table(kind);
        let mut at3 = ReadOptions::default();
        at3.snapshot = Some(before.snapshot());
        assert_eq!(at3.read_seq_or(6), 3);
        assert_eq!(read(&state, b"k1", &at3, None), Some(b"t1".to_vec()));
        assert_eq!(read(&state, b"k3", &at3, None), Some(b"t3".to_vec()));
        assert_eq!(read(&state, b"k4", &at3, None), None);

        let mut cache = BlockCache::new(1 << 20);
        assert_eq!(read(&state, b"k3", &at3, Some(&mut cache)), Some(b"t3".to_vec()));
        assert_eq!(read(&state, b"k3", &at3, Some(&mut cache)), Some(b"t3".to_vec()));
        assert_eq!(cache.stats().hits, 1);
    }
}

#[test]
fn scan_merges_memtables_and_tables() {
    let mut state = state_with_table(MemTableKind::BTree);
    let mut batch = WriteBatch::new();
    batch.put(b"k0".to_vec(), b"m0".to_vec());
    batch.delete(b"k1".to_vec());
    apply_batch(&mut state, 4, &batch);
    let rows = scan_opt(&state, KeyBound::Unbounded, KeyBound::Unbounded, &ReadOptions::default(), None)
        .expect("scan");
    assert_eq!(rows, vec![(b"k0".to_vec(), b"m0".to_vec()), (b"k3".to_vec(), b"t3".to_vec())]);
    let rows = scan_opt(
        &state,
        KeyBound::Excluded(b"k0".to_vec()),
        KeyBound::Included(b"k3".to_vec()),
        &ReadOptions::default(),
        None,
    )
    .expect("scan range");
    assert_eq!(rows, vec![(b"k3".to_vec(), b"t3".to_vec())]);
}

#[test]
fn closed_state_refuses_reads_and_commits() {
    let mut state = state_with_table(MemTableKind::BTree);
    state.closed = true;
    let mut metrics = Metrics::new();
    assert!(matches!(
        get_opt(&state, b"k1", &ReadOptions::default(), None, &mut metrics),
        Err(Error::Closed)
    ));
    assert!(matches!(
        scan_opt(&state, KeyBound::Unbounded, KeyBound::Unbounded, &ReadOptions::default(), None),
        Err(Error::Closed)
    ));
    assert!(matches!(prepare_commit(&state, 1, &WriteBatch::new(), &[], &[], None), Err(Error::Closed)));
}

#[test]
fn conflicts_name_the_changed_key() {
    let state = state_with_table(MemTableKind::BTree);
    // Nothing changed after sequence 3.
    assert!(ensure_no_transaction_conflicts(&state, 3, &[b"k1".to_vec()], &[], &[], None).is_ok());
    // k3 was written at 3, after a read at 2.
    match ensure_no_transaction_conflicts(&state, 2, &[b"k1".to_vec(), b"k3".to_vec()], &[], &[], None) {
        Err(Error::TransactionConflict(message)) => {
            assert_eq!(message, "read key changed after snapshot: k3")
        }
        other => panic!("unexpected {other:?}"),
    }
    match ensure_no_transaction_conflicts(&state, 2, &[], &[], &[b"k3".to_vec()], None) {
        Err(Error::TransactionConflict(message)) => {
            assert_eq!(message, "write key changed after snapshot: k3")
        }
        other => panic!("unexpected {other:?}"),
    }
    let ranges = vec![(KeyBound::Included(b"k2".to_vec()), KeyBound::Unbounded)];
    match ensure_no_transaction_conflicts(&state, 1, &[], &ranges, &[], None) {
        Err(Error::TransactionConflict(message)) => {
            assert_eq!(message, "scanned range changed after snapshot")
        }
        other => panic!("unexpected {other:?}"),
    }
    let ranges = vec![(KeyBound::Unbounded, KeyBound::Excluded(b"k2".to_vec()))];
    assert!(ensure_no_transaction_conflicts(&state, 1, &[], &ranges, &[], None).is_ok());
}

#[test]
fn conflict_message_is_lossy_utf8() {
    let mut state = DbState::new(MemTableKind::BTree, vec![], vec![], 0);
    let mut batch = WriteBatch::new();
    batch.put(vec![0xff, b'a'], b"v".to_vec());
    apply_batch(&mut state, 1, &batch);
    match ensure_no_transaction_conflicts(&state, 0, &[vec![0xff, b'a']], &[], &[], None) {
        Err(Error::TransactionConflict(message)) => {
            assert_eq!(message, "read key changed after snapshot: \u{FFFD}a")
        }
        other => panic!("unexpected {other:?}"),
    }
}

#[test]
fn any_entry_after_checks_keys_and_ranges() {
    let state = state_with_table(MemTableKind::BTree);
    assert!(any_entry_after(&state, 2, &KeyFilter::Key(b"k3".to_vec()), None).expect("check"));
    assert!(!any_entry_after(&state, 2, &KeyFilter::Key(b"k1".to_vec()), None).expect("check"));
    assert!(!any_entry_after(&state, 3, &KeyFilter::Range(KeyBound::Unbounded, KeyBound::Unbounded), None)
        .expect("check"));
}

#[test]
fn commit_takes_the_next_sequence_and_applies() {
    let mut state = state_with_table(MemTableKind::BTree);
    let mut batch = WriteBatch::new();
    batch.put(b"z".to_vec(), b"1".to_vec());
    let start = prepare_commit(&state, 3, &batch, &[b"k1".to_vec()], &[], None)
        .expect("no conflict")
        .expect("non-empty batch");
    assert_eq!(start, 4);
    let froze = apply_commit(&mut state, start, &batch, 1, MemTableKind::SkipList);
    assert!(froze);
    assert_eq!(state.last_sequence, 4);
    assert_eq!(state.immutables.len(), 1);
    assert!(state.mutable.is_empty());
    assert_eq!(state.mutable.kind(), MemTableKind::SkipList);
    assert_eq!(prepare_commit(&state, 4, &WriteBatch::new(), &[], &[], None).expect("empty"), None);
    assert!(matches!(
        prepare_commit(&state, 3, &batch, &[], &[], None),
        Err(Error::TransactionConflict(_))
    ));
}

#[test]
fn freezing_and_flushing_memtables() {
    let mut state = DbState::new(MemTableKind::BTree, vec![], vec![vec![], vec![]], 0);
    assert!(!freeze_mutable_if_needed(&mut state, 0, MemTableKind::BTree));
    assert!(take_oldest_flushable_memtable(&mut state, MemTableKind::BTree).is_none());
    let mut batch = WriteBatch::new();
    batch.put(b"a".to_vec(), b"1".to_vec());
    apply_batch(&mut state, 1, &batch);
    assert!(!freeze_mutable_if_needed(&mut state, usize::MAX, MemTableKind::BTree));
    let (taken, source) = take_oldest_flushable_memtable(&mut state, MemTableKind::BTree).expect("mutable");
    assert_eq!(source, FlushSource::Mutable);
    assert!(state.mutable.is_empty());
    restore_flush_memtable(&mut state, taken, source);
    assert!(!state.mutable.is_empty());
    assert!(freeze_mutable_if_needed(&mut state, 1, MemTableKind::BTree));
    assert_eq!(state.immutables.len(), 1);
    let (taken, source) = take_oldest_flushable_memtable(&mut state, MemTableKind::BTree).expect("frozen");
    assert_eq!(source, FlushSource::ImmutableOldest);
    assert!(state.immutables.is_empty());
    restore_flush_memtable(&mut state, taken, source);
    assert_eq!(state.immutables.len(), 1);
    assert_eq!(level_file_counts(&state), vec![0, 0]);
}

#[test]
fn write_accounting() {
    let mut batch = WriteBatch::new();
    batch.put(b"ab".to_vec(), b"cde".to_vec());
    batch.delete(b"f".to_vec());
    batch.put(b"ab".to_vec(), b"x".to_vec());
    assert_eq!(batch_user_write_bytes(&batch), 9);
    assert_eq!(wal_record_bytes(&[0u8; 10]), 19);
    assert_eq!(batch_write_keys(&batch), vec![b"ab".to_vec(), b"f".to_vec()]);
    let entry = (ikey(b"key", 1, ValueType::Put), ValueRecord::Put(b"value".to_vec()));
    assert_eq!(estimate_entry_size(&entry), 8 + std::mem::size_of::<InternalKey>());
}

#[test]
fn split_keeps_versions_of_a_key_together() {
    let entries = vec![
        (ikey(b"a", 2, ValueType::Put), ValueRecord::Put(b"1".to_vec())),
        (ikey(b"a", 1, ValueType::Put), ValueRecord::Put(b"2".to_vec())),
        (ikey(b"b", 1, ValueType::Delete), ValueRecord::Delete),
        (ikey(b"c", 1, ValueType::Put), ValueRecord::Put(b"3".to_vec())),
    ];
    assert!(entries_size_fits(&entries));
    let chunks = split_compaction_entries(entries.clone(), 1, 10);
    let sizes: Vec<usize> = chunks.iter().map(|c| c.len()).collect();
    assert_eq!(sizes, vec![2, 1, 1]);
    let rejoined: Vec<(InternalKey, ValueRecord)> = chunks.into_iter().flatten().collect();
    assert_eq!(rejoined, entries);
    let capped = split_compaction_entries(entries.clone(), 1, 2);
    let sizes: Vec<usize> = capped.iter().map(|c| c.len()).collect();
    assert_eq!(sizes, vec![2, 2]);
    let whole = split_compaction_entries(entries, usize::MAX, 0);
    assert_eq!(whole.len(), 1);
    assert!(split_compaction_entries(Vec::new(), 1, 1).is_empty());
}

#[test]
fn point_reads_count_bloom_outcomes() {
    let state = state_with_table(MemTableKind::BTree);
    let mut metrics = Metrics::new();
    let opts = ReadOptions::default();
    assert_eq!(get_opt(&state, b"k1", &opts, None, &mut metrics).expect("get"), Some(b"t1".to_vec()));
    let snap = metrics.snapshot(CacheStats::default());
    assert_eq!((snap.bloom_useful, snap.bloom_false_positive), (0, 0));
    // Outside the table's key range: the table is not consulted at all.
    assert_eq!(get_opt(&state, b"zz", &opts, None, &mut metrics).expect("get"), None);
    let snap = metrics.snapshot(CacheStats::default());
    assert_eq!((snap.bloom_useful, snap.bloom_false_positive), (0, 0));
    // Inside the range but absent: the filter rules the table out or lets it through.
    assert_eq!(get_opt(&state, b"k25", &opts, None, &mut metrics).expect("get"), None);
    let snap = metrics.snapshot(CacheStats::default());
    assert_eq!(snap.bloom_useful + snap.bloom_false_positive, 1);
}

#[test]
fn installed_table_becomes_newest_level_zero_table() {
    let mut state = state_with_table(MemTableKind::BTree);
    let mut builder = SSTableBuilder::new(64);
    builder.add(ikey(b"k1", 9, ValueType::Put), &ValueRecord::Put(b"newer".to_vec())).expect("add");
    let image = builder.finish().expect("finish");
    let reader = SSTableReader::open(image).expect("open");
    let meta = FileMeta {
        number: 2,
        file_size: 1,
        smallest: ikey(b"k1", 9, ValueType::Put),
        largest: ikey(b"k1", 9, ValueType::Put),
        smallest_seq: 9,
        largest_seq: 9,
    };
    install_l0_table(&mut state, (meta, Arc::new(reader)));
    state.last_sequence = 9;
    assert_eq!(state.l0_tables[0].0.number, 2);
    assert_eq!(read(&state, b"k1", &ReadOptions::default(), None), Some(b"newer".to_vec()));
}

#[test]
fn transaction_reads_see_its_snapshot_under_its_writes() {
    let mut state = state_with_table(MemTableKind::BTree);
    let mut txn = Transaction::new(3, TransactionOptions::default());
    let mut batch = WriteBatch::new();
    batch.put(b"k1".to_vec(), b"later".to_vec());
    apply_batch(&mut state, 4, &batch);
    txn.put(b"k4", b"mine").expect("put");
    txn.delete(b"k3").expect("delete");

    let mut metrics = Metrics::new();
    let mut cache = BlockCache::new(1 << 20);
    let got = transaction_get(&mut txn, &state, b"k1", Some(&mut cache), &mut metrics).expect("get");
    assert_eq!(got, Some(b"t1".to_vec()));
    let got = transaction_get(&mut txn, &state, b"k4", None, &mut metrics).expect("get");
    assert_eq!(got, Some(b"mine".to_vec()));
    let got = transaction_get(&mut txn, &state, b"k3", None, &mut metrics).expect("get");
    assert_eq!(got, None);

    let rows = transaction_scan(&mut txn, &state, &KeyBound::Unbounded, &KeyBound::Unbounded, None).expect("scan");
    assert_eq!(rows, vec![(b"k1".to_vec(), b"t1".to_vec()), (b"k4".to_vec(), b"mine".to_vec())]);

    let (_, _, keys, ranges) = txn.commit().expect("commit");
    assert_eq!(keys, vec![b"k1".to_vec()]);
    assert_eq!(ranges, vec![(KeyBound::Unbounded, KeyBound::Unbounded)]);
}

#[test]
fn transaction_reads_of_a_closed_engine_fail_unless_local() {
    let mut state = state_with_table(MemTableKind::BTree);
    state.closed = true;
    let mut txn = Transaction::new(3, TransactionOptions::default());
    txn.put(b"k9", b"mine").expect("put");
    let mut metrics = Metrics::new();
    assert!(matches!(transaction_get(&mut txn, &state, b"k1", None, &mut metrics), Err(Error::Closed)));
    let got = transaction_get(&mut txn, &state, b"k9", None, &mut metrics).expect("local read");
    assert_eq!(got, Some(b"mine".to_vec()));
    assert!(matches!(
        transaction_scan(&mut txn, &state, &KeyBound::Unbounded, &KeyBound::Unbounded, None),
        Err(Error::Closed)
    ));
}

#[test]
fn freeze_and_flush_keep_reads() {
    let mut state = DbState::new(MemTableKind::SkipList, vec![], vec![], 0);
    let mut batch = WriteBatch::new();
    batch.put(b"a".to_vec(), b"1".to_vec());
    batch.delete(b"b".to_vec());
    apply_batch(&mut state, 1, &batch);
    let opts = ReadOptions::default();
    assert_eq!(read(&state, b"a", &opts, None), Some(b"1".to_vec()));
    assert!(freeze_mutable_if_needed(&mut state, 1, MemTableKind::BTree));
    assert_eq!(read(&state, b"a", &opts, None), Some(b"1".to_vec()));
    assert_eq!(read(&state, b"b", &opts, None), None);

    let (memtable, _) = take_oldest_flushable_memtable(&mut state, MemTableKind::BTree).expect("frozen memtable");
    let mut builder = SSTableBuilder::new(64);
    for (key, value) in memtable.entries() {
        builder.add(key, &value).expect("add");
    }
    let image = builder.finish().expect("finish");
    let size = image.len() as u64;
    let reader = SSTableReader::open(image).expect("open");
    let meta = FileMeta {
        number: 9,
        file_size: size,
        smallest: ikey(b"a", 1, ValueType::Put),
        largest: ikey(b"b", 2, ValueType::Delete),
        smallest_seq: 1,
        largest_seq: 2,
    };
    install_l0_table(&mut state, (meta, Arc::new(reader)));
    assert!(state.immutables.is_empty());
    assert_eq!(read(&state, b"a", &opts, None), Some(b"1".to_vec()));
    assert_eq!(read(&state, b"b", &opts, None), None);
}
