use tylsmdb::db_state::{apply_commit, DbState};
use tylsmdb::memtable::{MemTableKind, ValueRecord};
use tylsmdb::recovery::{check_open, replay_log, replay_wal};
use tylsmdb::{Error, WriteBatch};

#[test]
fn open_refusals_follow_the_options() {
    assert!(check_open(true, false, false).is_ok());
    assert!(check_open(false, false, true).is_ok());
    assert!(check_open(true, false, true).is_ok());
    assert!(matches!(check_open(true, true, true), Err(Error::InvalidArgument(_))));
    assert!(matches!(check_open(false, false, false), Err(Error::InvalidArgument(_))));
}

fn payload(start: u64, puts: &[(&[u8], &[u8])], deletes: &[&[u8]]) -> Vec<u8> {
    let mut batch = WriteBatch::new();
    for (k, v) in puts {
        batch.put(k.to_vec(), v.to_vec());
    }
    for k in deletes {
        batch.delete(k.to_vec());
    }
    batch.encode_with_sequence(start)
}

#[test]
fn replay_applies_logged_batches_in_order() {
    for kind in [MemTableKind::BTree, MemTableKind::SkipList] {
        let mut state = DbState::new(kind, vec![], vec![], 0);
        let payloads = vec![
            payload(1, &[(b"a", b"1"), (b"b", b"2")], &[]),
            payload(3, &[(b"a", b"3")], &[b"b"]),
        ];
        replay_wal(&mut state, &payloads).expect("replay");
        assert_eq!(state.last_sequence, 4);
        assert_eq!(state.mutable.get(b"a", 4), Some(ValueRecord::Put(b"3".to_vec())));
        assert_eq!(state.mutable.get(b"a", 2), Some(ValueRecord::Put(b"1".to_vec())));
        assert_eq!(state.mutable.get(b"b", 4), Some(ValueRecord::Delete));
        assert!(state.immutables.is_empty());
    }
}

#[test]
fn replay_stops_at_a_corrupt_payload() {
    let mut state = DbState::new(MemTableKind::BTree, vec![], vec![], 0);
    let mut bad = payload(2, &[(b"x", b"9")], &[]);
    bad.push(0xff);
    let payloads = vec![payload(1, &[(b"a", b"1")], &[]), bad, payload(3, &[(b"c", b"3")], &[])];
    assert!(matches!(replay_wal(&mut state, &payloads), Err(Error::Corruption(_))));
    assert_eq!(state.last_sequence, 1);
    assert_eq!(state.mutable.get(b"a", 9), Some(ValueRecord::Put(b"1".to_vec())));
    assert_eq!(state.mutable.get(b"x", 9), None);
    assert_eq!(state.mutable.get(b"c", 9), None);
}

#[test]
fn commits_freeze_once_the_memtable_is_full() {
    let mut state = DbState::new(MemTableKind::BTree, vec![], vec![], 0);
    let mut batch = WriteBatch::new();
    batch.put(b"k".to_vec(), b"v".to_vec());
    assert!(!apply_commit(&mut state, 1, &batch, usize::MAX, MemTableKind::BTree));
    assert!(state.immutables.is_empty());
    assert!(apply_commit(&mut state, 2, &batch, 1, MemTableKind::SkipList));
    assert_eq!(state.immutables.len(), 1);
    assert!(state.mutable.is_empty());
    assert_eq!(state.mutable.kind(), MemTableKind::SkipList);
}

#[test]
fn checked_replay_refuses_sequences_past_the_end() {
    let mut state = DbState::new(MemTableKind::BTree, vec![], vec![], 0);
    let payloads = vec![payload(1, &[(b"a", b"1")], &[]), payload(u64::MAX, &[(b"b", b"2"), (b"c", b"3")], &[])];
    assert!(matches!(replay_log(&mut state, &payloads), Err(Error::Corruption(_))));
    assert!(state.mutable.is_empty());
    assert_eq!(state.last_sequence, 0);

    let payloads = vec![payload(1, &[(b"a", b"1")], &[])];
    replay_log(&mut state, &payloads).expect("replay");
    assert_eq!(state.mutable.get(b"a", 1), Some(ValueRecord::Put(b"1".to_vec())));
}
