use std::sync::Arc;

use tylsmdb::bound::KeyBound;
use tylsmdb::key::{InternalKey, ValueType};
use tylsmdb::memtable::arena::Arena;
use tylsmdb::memtable::btree;
use tylsmdb::memtable::skiplist::SkipListMemTable;
use tylsmdb::memtable::{MemTable, MemTableKind, ValueRecord};

#[test]
fn allocated_bytes_are_shared_slices_owned_by_arena() {
    let mut arena = Arena::new();

    let bytes = arena.allocate(b"abc");
    let cloned = bytes.clone();

    assert!(Arc::ptr_eq(&bytes, &cloned));
    assert_eq!(&*bytes, b"abc");
    assert_eq!(arena.bytes(), 3);
}

#[test]
fn arena_counts_every_allocation() {
    let mut arena = Arena::new();
    assert_eq!(arena.bytes(), 0);
    arena.allocate(b"hello");
    arena.allocate(b"");
    arena.allocate(b"xy");
    assert_eq!(arena.bytes(), 7);
}

#[test]
fn btree_newest_visible_value_wins() {
    let mut table = btree::MemTable::new();
    table.put(1, b"k".to_vec(), b"old".to_vec());
    table.put(2, b"k".to_vec(), b"new".to_vec());

    assert_eq!(table.get(b"k", 2), Some(ValueRecord::Put(b"new".to_vec())));
}

#[test]
fn btree_tombstone_hides_older_value() {
    let mut table = btree::MemTable::new();
    table.put(1, b"k".to_vec(), b"old".to_vec());
    table.delete(2, b"k".to_vec());

    assert_eq!(table.get(b"k", 2), Some(ValueRecord::Delete));
}

#[test]
fn btree_lower_read_sequence_sees_previous_version() {
    let mut table = btree::MemTable::new();
    table.put(1, b"k".to_vec(), b"old".to_vec());
    table.put(3, b"k".to_vec(), b"new".to_vec());

    assert_eq!(table.get(b"k", 2), Some(ValueRecord::Put(b"old".to_vec())));
}

#[test]
fn btree_scan_returns_sorted_unique_user_keys() {
    let mut table = btree::MemTable::new();
    table.put(1, b"a".to_vec(), b"old".to_vec());
    table.put(2, b"a".to_vec(), b"new".to_vec());
    table.put(3, b"b".to_vec(), b"hidden".to_vec());
    table.put(4, b"c".to_vec(), b"outside".to_vec());
    table.delete(5, b"b".to_vec());

    assert_eq!(
        table.scan(&KeyBound::Included(b"a".to_vec()), &KeyBound::Excluded(b"c".to_vec()), 5),
        vec![(b"a".to_vec(), b"new".to_vec())]
    );
    assert_eq!(
        table.scan(&KeyBound::Unbounded, &KeyBound::Unbounded, 5),
        vec![
            (b"a".to_vec(), b"new".to_vec()),
            (b"c".to_vec(), b"outside".to_vec()),
        ]
    );
}

#[test]
fn btree_tests_newest_visible_value_wins() {
    let mut table = btree::MemTable::new();
    table.put(1, b"k".to_vec(), b"old".to_vec());
    table.put(2, b"k".to_vec(), b"new".to_vec());

    assert_eq!(table.get(b"k", 2), Some(ValueRecord::Put(b"new".to_vec())));
}

#[test]
fn btree_tests_tombstone_hides_older_value() {
    let mut table = btree::MemTable::new();
    table.put(1, b"k".to_vec(), b"old".to_vec());
    table.delete(2, b"k".to_vec());

    assert_eq!(table.get(b"k", 2), Some(ValueRecord::Delete));
}

#[test]
fn btree_tests_lower_read_sequence_sees_previous_version() {
    let mut table = btree::MemTable::new();
    table.put(1, b"k".to_vec(), b"old".to_vec());
    table.put(3, b"k".to_vec(), b"new".to_vec());

    assert_eq!(table.get(b"k", 2), Some(ValueRecord::Put(b"old".to_vec())));
}

#[test]
fn btree_tests_scan_returns_sorted_unique_user_keys() {
    let mut table = btree::MemTable::new();
    table.put(1, b"a".to_vec(), b"old".to_vec());
    table.put(2, b"a".to_vec(), b"new".to_vec());
    table.put(3, b"b".to_vec(), b"hidden".to_vec());
    table.put(4, b"c".to_vec(), b"outside".to_vec());
    table.delete(5, b"b".to_vec());

    assert_eq!(
        table.scan(&KeyBound::Included(b"a".to_vec()), &KeyBound::Excluded(b"c".to_vec()), 5),
        vec![(b"a".to_vec(), b"new".to_vec())]
    );
    assert_eq!(
        table.scan(&KeyBound::Unbounded, &KeyBound::Unbounded, 5),
        vec![
            (b"a".to_vec(), b"new".to_vec()),
            (b"c".to_vec(), b"outside".to_vec()),
        ]
    );
}

#[test]
fn both_memtable_kinds_have_same_visible_behavior() {
    for kind in [MemTableKind::BTree, MemTableKind::SkipList] {
        let mut table = MemTable::new(kind);
        table.put(1, b"a".to_vec(), b"old".to_vec());
        table.put(2, b"a".to_vec(), b"new".to_vec());
        table.put(3, b"b".to_vec(), b"value".to_vec());
        table.delete(4, b"b".to_vec());

        assert_eq!(table.kind(), kind);
        assert_eq!(table.get(b"a", 4), Some(ValueRecord::Put(b"new".to_vec())));
        assert_eq!(table.get(b"b", 4), Some(ValueRecord::Delete));
        assert_eq!(
            table.scan(&KeyBound::Unbounded, &KeyBound::Excluded(b"z".to_vec()), 4),
            vec![(b"a".to_vec(), b"new".to_vec())]
        );
    }
}

#[test]
fn skiplist_keeps_versions_sorted_and_replaces_duplicates() {
    let mut table = SkipListMemTable::new();
    assert!(table.is_empty());
    table.put(2, b"b".to_vec(), b"two".to_vec());
    table.put(1, b"a".to_vec(), b"one".to_vec());
    table.put(5, b"a".to_vec(), b"five".to_vec());
    table.put(5, b"a".to_vec(), b"again".to_vec());
    let entries = table.entries();
    let keys: Vec<(Vec<u8>, u64)> = entries
        .iter()
        .map(|(k, _)| (k.user_key().to_vec(), k.sequence()))
        .collect();
    assert_eq!(keys, vec![(b"a".to_vec(), 5), (b"a".to_vec(), 1), (b"b".to_vec(), 2)]);
    assert_eq!(entries[0].1, ValueRecord::Put(b"again".to_vec()));
    assert_eq!(table.get(b"a", 4), Some(ValueRecord::Put(b"one".to_vec())));
    assert_eq!(table.get(b"a", 0), None);
    assert!(!table.is_empty());
}

#[test]
fn memtable_sizes_grow_with_writes() {
    for kind in [MemTableKind::BTree, MemTableKind::SkipList] {
        let mut table = MemTable::new(kind);
        assert!(table.is_empty());
        let before = table.approximate_size();
        table.put(1, b"key".to_vec(), b"value".to_vec());
        assert!(table.approximate_size() > before);
        assert!(!table.is_empty());
        let entries = table.entries();
        assert_eq!(entries.len(), 1);
        assert_eq!(entries[0].0, InternalKey::new(b"key".to_vec(), 1, ValueType::Put));
    }
}

#[test]
fn visible_value_of_records() {
    assert_eq!(ValueRecord::Put(b"v".to_vec()).into_visible_value(), Some(b"v".to_vec()));
    assert_eq!(ValueRecord::Delete.into_visible_value(), None);
}
