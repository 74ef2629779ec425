use tylsmdb::bound::KeyBound;
use tylsmdb::mvcc::snapshot::Snapshot;
use tylsmdb::mvcc::transaction::{Transaction, TxnRead};
use tylsmdb::mvcc::watermark::Watermark;
use tylsmdb::memtable::ValueRecord;
use tylsmdb::{BatchRecord, Error, TransactionOptions};

#[test]
fn oldest_tracks_multiset_entries() {
    let mut watermark = Watermark::new();

    assert_eq!(watermark.oldest(), None);
    watermark.add(7);
    watermark.add(3);
    watermark.add(3);

    assert_eq!(watermark.oldest(), Some(3));
    watermark.remove(3);
    assert_eq!(watermark.oldest(), Some(3));
    watermark.remove(3);
    assert_eq!(watermark.oldest(), Some(7));
    watermark.remove(7);
    assert_eq!(watermark.oldest(), None);
}

#[test]
fn removing_an_unregistered_sequence_changes_nothing() {
    let mut watermark = Watermark::new();
    watermark.add(5);
    watermark.remove(4);
    assert_eq!(watermark.oldest(), Some(5));
}

#[test]
fn snapshots_register_and_release_their_sequence() {
    let mut watermark = Watermark::new();
    let first = Snapshot::new(10, &mut watermark);
    let copy = first.duplicate(&mut watermark);
    let later = Snapshot::new(12, &mut watermark);
    assert_eq!(copy.read_seq(), 10);
    assert_eq!(watermark.oldest(), Some(10));
    first.release(&mut watermark);
    assert_eq!(watermark.oldest(), Some(10));
    copy.release(&mut watermark);
    assert_eq!(watermark.oldest(), Some(12));
    later.release(&mut watermark);
    assert_eq!(watermark.oldest(), None);
}

#[test]
fn transaction_reads_its_own_writes() {
    let mut txn = Transaction::new(4, TransactionOptions::default());
    assert_eq!(txn.read_seq(), 4);
    txn.put(b"k", b"v1").expect("put");
    txn.put(b"k", b"v2").expect("put again");
    txn.delete(b"gone").expect("delete");
    assert!(matches!(txn.get(b"k"), Ok(TxnRead::Local(Some(v))) if v == b"v2".to_vec()));
    assert!(matches!(txn.get(b"gone"), Ok(TxnRead::Local(None))));
    assert!(matches!(txn.get(b"other"), Ok(TxnRead::Snapshot)));
    assert_eq!(txn.local_value(b"k"), Some(ValueRecord::Put(b"v2".to_vec())));
    assert_eq!(txn.local_value(b"gone"), Some(ValueRecord::Delete));
    assert_eq!(txn.local_value(b"other"), None);
}

#[test]
fn read_only_transaction_refuses_writes() {
    let mut txn = Transaction::new(1, TransactionOptions { read_only: true });
    assert!(matches!(txn.put(b"k", b"v"), Err(Error::InvalidArgument(_))));
    assert!(matches!(txn.delete(b"k"), Err(Error::InvalidArgument(_))));
    assert!(txn.rollback().is_ok());
}

#[test]
fn commit_hands_over_reads_and_writes() {
    let mut txn = Transaction::new(9, TransactionOptions::default());
    assert!(matches!(txn.get(b"b"), Ok(TxnRead::Snapshot)));
    assert!(matches!(txn.get(b"a"), Ok(TxnRead::Snapshot)));
    assert!(matches!(txn.get(b"b"), Ok(TxnRead::Snapshot)));
    txn.begin_scan(&KeyBound::Included(b"x".to_vec()), &KeyBound::Unbounded).expect("scan");
    txn.put(b"c", b"3").expect("put");
    let (seq, batch, keys, ranges) = txn.commit().expect("commit");
    assert_eq!(seq, 9);
    assert_eq!(batch.records(), &[BatchRecord::Put { key: b"c".to_vec(), value: b"3".to_vec() }]);
    assert_eq!(keys, vec![b"a".to_vec(), b"b".to_vec()]);
    assert_eq!(ranges, vec![(KeyBound::Included(b"x".to_vec()), KeyBound::Unbounded)]);
}

#[test]
fn scan_overlay_applies_buffered_writes_in_range() {
    let mut txn = Transaction::new(3, TransactionOptions::default());
    txn.put(b"b", b"mine").expect("put");
    txn.delete(b"c").expect("delete");
    txn.put(b"z", b"outside").expect("put");
    let rows = vec![
        (b"a".to_vec(), b"1".to_vec()),
        (b"c".to_vec(), b"3".to_vec()),
    ];
    let merged = txn.scan_overlay(&KeyBound::Unbounded, &KeyBound::Excluded(b"m".to_vec()), rows);
    assert_eq!(
        merged,
        vec![(b"a".to_vec(), b"1".to_vec()), (b"b".to_vec(), b"mine".to_vec())]
    );
}
