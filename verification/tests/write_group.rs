use tylsmdb::db_state::{begin_flush, DbState, FlushSource};
use tylsmdb::memtable::{MemTableKind, ValueRecord};
use tylsmdb::write_group::{
    apply_group_to_state, assign_start_sequences, commit_wal_plan, group_user_write_bytes, new_group_item,
    prepare_write_group, repeat_group_error, should_wait_for_group, wal_plan, write_pressure,
    WritePressure,
};
use tylsmdb::{Error, WalSyncMode, WriteBatch, WriteOptions};

fn batch(keys: &[&[u8]]) -> WriteBatch {
    let mut b = WriteBatch::new();
    for k in keys {
        b.put(k.to_vec(), b"v".to_vec());
    }
    b
}

fn opts(sync: bool, disable_wal: bool) -> WriteOptions {
    WriteOptions { sync, disable_wal }
}

#[test]
fn group_items_get_consecutive_sequences() {
    let items = vec![
        new_group_item(batch(&[b"a", b"b"]), opts(false, false)),
        new_group_item(batch(&[b"c"]), opts(false, false)),
        new_group_item(batch(&[b"d", b"e", b"f"]), opts(false, false)),
    ];
    assert_eq!(items[0].user_write_bytes, 4);
    assert_eq!(group_user_write_bytes(&items), 12);
    let assigned = assign_start_sequences(items, 10);
    let starts: Vec<u64> = assigned.iter().map(|i| i.start_sequence).collect();
    assert_eq!(starts, vec![11, 13, 14]);
}

#[test]
fn wal_plan_skips_unlogged_writes_and_decides_sync() {
    let items = assign_start_sequences(
        vec![
            new_group_item(batch(&[b"a"]), opts(false, false)),
            new_group_item(batch(&[b"b"]), opts(true, true)),
            new_group_item(batch(&[b"c"]), opts(false, false)),
        ],
        0,
    );
    let (payloads, sync) = wal_plan(&items, true, WalSyncMode::Never);
    assert_eq!(payloads.len(), 2);
    assert_eq!(payloads[0], items[0].batch.encode_with_sequence(1));
    assert_eq!(payloads[1], items[2].batch.encode_with_sequence(3));
    // The only write asking for a sync skips the log.
    assert!(!sync);
    let (_, sync) = wal_plan(&items, true, WalSyncMode::PerWrite);
    assert!(sync);
    let (payloads, sync) = wal_plan(&items, false, WalSyncMode::PerWrite);
    assert!(payloads.is_empty() && !sync);
}

#[test]
fn closed_engine_refuses_a_group() {
    let mut state = DbState::new(MemTableKind::BTree, vec![], vec![], 0);
    state.closed = true;
    let items = vec![new_group_item(batch(&[b"a"]), opts(false, false))];
    assert!(matches!(prepare_write_group(&state, items, true, WalSyncMode::Never), Err(Error::Closed)));
}

#[test]
fn group_is_applied_in_order() {
    let mut state = DbState::new(MemTableKind::SkipList, vec![], vec![], 5);
    let mut second = WriteBatch::new();
    second.delete(b"a".to_vec());
    let items = vec![
        new_group_item(batch(&[b"a", b"b"]), opts(false, false)),
        new_group_item(second, opts(false, true)),
    ];
    let (assigned, payloads, sync) = prepare_write_group(&state, items, true, WalSyncMode::Never).expect("prepare");
    assert_eq!(payloads.len(), 1);
    assert!(!sync);
    let froze = apply_group_to_state(&mut state, &assigned, usize::MAX, MemTableKind::SkipList);
    assert!(!froze);
    assert_eq!(state.last_sequence, 8);
    assert_eq!(state.mutable.get(b"a", 8), Some(ValueRecord::Delete));
    assert_eq!(state.mutable.get(b"a", 7), Some(ValueRecord::Put(b"v".to_vec())));
    let froze = apply_group_to_state(&mut state, &assign_start_sequences(vec![new_group_item(batch(&[b"z"]), opts(false, false))], 8), 1, MemTableKind::BTree);
    assert!(froze);
    assert_eq!(state.immutables.len(), 1);
}

#[test]
fn group_errors_are_repeated() {
    let errs = repeat_group_error(Error::Corruption("bad".to_string()), 3);
    assert_eq!(errs.len(), 3);
    for e in &errs {
        assert!(matches!(e, Err(Error::Corruption(m)) if m == "bad"));
    }
    let errs = repeat_group_error(Error::Io(std::io::Error::new(std::io::ErrorKind::Other, "disk gone")), 2);
    for e in &errs {
        assert!(matches!(e, Err(Error::Corruption(m)) if m == "disk gone"));
    }
    assert!(repeat_group_error(Error::Closed, 0).is_empty());
    assert!(matches!(repeat_group_error(Error::Unsupported("x"), 1)[0], Err(Error::Unsupported("x"))));
}

#[test]
fn group_waits_and_write_pressure() {
    assert!(!should_wait_for_group(opts(false, false), WalSyncMode::Never));
    assert!(should_wait_for_group(opts(true, false), WalSyncMode::Never));
    assert!(should_wait_for_group(opts(false, false), WalSyncMode::PerWrite));
    assert_eq!(write_pressure(3, 12, 20), WritePressure::Proceed);
    assert_eq!(write_pressure(12, 12, 20), WritePressure::Slowdown);
    assert_eq!(write_pressure(25, 12, 20), WritePressure::Stop);
}

#[test]
fn commit_logging_and_flush_steps() {
    let b = batch(&[b"k"]);
    assert!(commit_wal_plan(&b, 3, false, WalSyncMode::PerWrite).is_none());
    let (payload, sync) = commit_wal_plan(&b, 3, true, WalSyncMode::Never).expect("logged");
    assert_eq!(payload, b.encode_with_sequence(3));
    assert!(!sync);

    let mut state = DbState::new(MemTableKind::BTree, vec![], vec![], 0);
    assert!(matches!(begin_flush(&mut state, MemTableKind::BTree), Ok(None)));
    apply_group_to_state(&mut state, &assign_start_sequences(vec![new_group_item(batch(&[b"a"]), opts(false, false))], 0), usize::MAX, MemTableKind::BTree);
    let (memtable, source) = begin_flush(&mut state, MemTableKind::BTree).expect("open").expect("something to flush");
    assert_eq!(source, FlushSource::Mutable);
    assert_eq!(memtable.entries().len(), 1);
    state.closed = true;
    assert!(matches!(begin_flush(&mut state, MemTableKind::BTree), Err(Error::Closed)));
}

#[test]
fn group_spreads_over_frozen_memtables() {
    let mut state = DbState::new(MemTableKind::BTree, vec![], vec![], 0);
    let items = assign_start_sequences(
        vec![
            new_group_item(batch(&[b"a"]), opts(false, false)),
            new_group_item(batch(&[b"b"]), opts(false, false)),
        ],
        0,
    );
    let froze = apply_group_to_state(&mut state, &items, 1, MemTableKind::SkipList);
    assert!(froze);
    assert_eq!(state.immutables.len(), 2);
    assert_eq!(state.immutables[0].get(b"a", 2), Some(ValueRecord::Put(b"v".to_vec())));
    assert_eq!(state.immutables[0].get(b"b", 2), None);
    assert_eq!(state.immutables[1].get(b"b", 2), Some(ValueRecord::Put(b"v".to_vec())));
    assert!(state.mutable.is_empty());
    assert_eq!(state.mutable.kind(), MemTableKind::SkipList);
}
