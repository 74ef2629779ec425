use tylsmdb::bound::KeyBound;
use tylsmdb::iterator::{
    ConcatIterator, DBIterator, EntryIterator, MergeIterator, StorageIterator, TwoMergeIterator,
};
use tylsmdb::key::{InternalKey, ValueType};
use tylsmdb::memtable::ValueRecord;

fn put(key: &[u8], sequence: u64, value: &[u8]) -> (InternalKey, ValueRecord) {
    (
        InternalKey::new(key.to_vec(), sequence, ValueType::Put),
        ValueRecord::Put(value.to_vec()),
    )
}

fn del(key: &[u8], sequence: u64) -> (InternalKey, ValueRecord) {
    (
        InternalKey::new(key.to_vec(), sequence, ValueType::Delete),
        ValueRecord::Delete,
    )
}

fn drain<I: StorageIterator>(iter: &mut I) -> Vec<(Vec<u8>, u64)> {
    let mut out = Vec::new();
    while iter.is_valid() {
        out.push((iter.key().user_key().to_vec(), iter.key().sequence()));
        iter.next().expect("next");
    }
    out
}

#[test]
fn db_iterator_filters_old_versions_and_tombstones() {
    let entries = vec![
        put(b"a", 5, b"new"),
        put(b"a", 2, b"old"),
        del(b"b", 4),
        put(b"b", 1, b"hidden"),
        put(b"c", 3, b"visible"),
    ];
    let mut iter = DBIterator::new(
        EntryIterator::new(entries),
        KeyBound::Included(b"a".to_vec()),
        KeyBound::Excluded(b"d".to_vec()),
        5,
    );

    assert_eq!(
        iter.collect().expect("collect visible rows"),
        vec![
            (b"a".to_vec(), b"new".to_vec()),
            (b"c".to_vec(), b"visible".to_vec())
        ]
    );
}

#[test]
fn db_iterator_respects_read_sequence_and_bounds() {
    let entries = vec![
        put(b"a", 5, b"new"),
        put(b"a", 2, b"old"),
        del(b"b", 4),
        put(b"b", 1, b"hidden"),
        put(b"c", 3, b"visible"),
    ];
    let mut iter = DBIterator::new(
        EntryIterator::new(entries),
        KeyBound::Unbounded,
        KeyBound::Included(b"b".to_vec()),
        3,
    );
    assert_eq!(
        iter.collect().expect("collect"),
        vec![(b"a".to_vec(), b"old".to_vec()), (b"b".to_vec(), b"hidden".to_vec())]
    );
}

#[test]
fn entry_iterator_sorts_its_input() {
    let mut iter = EntryIterator::new(vec![put(b"b", 1, b"x"), put(b"a", 1, b"y"), put(b"a", 3, b"z")]);
    assert_eq!(
        drain(&mut iter),
        vec![(b"a".to_vec(), 3), (b"a".to_vec(), 1), (b"b".to_vec(), 1)]
    );
}

#[test]
fn merge_iterator_interleaves_children_in_key_order() {
    let left = EntryIterator::new(vec![put(b"a", 2, b"1"), put(b"c", 1, b"2")]);
    let right = EntryIterator::new(vec![put(b"a", 4, b"3"), put(b"b", 1, b"4")]);
    let mut merged = MergeIterator::new(vec![left, right]);
    assert_eq!(
        drain(&mut merged),
        vec![(b"a".to_vec(), 4), (b"a".to_vec(), 2), (b"b".to_vec(), 1), (b"c".to_vec(), 1)]
    );
}

#[test]
fn two_merge_iterator_merges_both_sides() {
    let left = EntryIterator::new(vec![put(b"b", 1, b"1")]);
    let right = EntryIterator::new(vec![put(b"a", 1, b"2"), put(b"c", 1, b"3")]);
    let mut merged = TwoMergeIterator::new(left, right);
    assert_eq!(
        drain(&mut merged),
        vec![(b"a".to_vec(), 1), (b"b".to_vec(), 1), (b"c".to_vec(), 1)]
    );
}

#[test]
fn concat_iterator_skips_empty_children_and_seeks() {
    let first = EntryIterator::new(vec![put(b"a", 1, b"1")]);
    let empty = EntryIterator::new(Vec::new());
    let last = EntryIterator::new(vec![put(b"m", 1, b"2"), put(b"z", 1, b"3")]);
    let mut concat = ConcatIterator::new(vec![first, empty, last]);
    assert_eq!(concat.key().user_key(), b"a");
    concat
        .seek(&InternalKey::new(b"n".to_vec(), u64::MAX, ValueType::Put))
        .expect("seek");
    assert_eq!(drain(&mut concat), vec![(b"z".to_vec(), 1)]);
}
