use tylsmdb::batch::{BatchRecord, WriteBatch};
use tylsmdb::Error;

#[test]
fn write_batch_payload_roundtrips_with_start_sequence() {
    let mut batch = WriteBatch::new();
    batch.put(b"a".to_vec(), b"1".to_vec());
    batch.delete(b"b".to_vec());

    let payload = batch.encode_with_sequence(42);
    let (start_sequence, decoded) = WriteBatch::decode_payload(&payload).expect("decode payload");

    assert_eq!(start_sequence, 42);
    assert_eq!(decoded.records(), batch.records());
    assert_eq!(
        decoded.records(),
        &[
            BatchRecord::Put {
                key: b"a".to_vec(),
                value: b"1".to_vec()
            },
            BatchRecord::Delete { key: b"b".to_vec() }
        ]
    );
}

#[test]
fn empty_batch_roundtrips() {
    let batch = WriteBatch::new();
    assert!(batch.is_empty());
    assert_eq!(batch.len(), 0);
    let payload = batch.encode_with_sequence(7);
    let (seq, decoded) = WriteBatch::decode_payload(&payload).expect("decode empty");
    assert_eq!(seq, 7);
    assert!(decoded.is_empty());
}

#[test]
fn batch_counts_records_in_order() {
    let mut batch = WriteBatch::new();
    batch.put(b"k".to_vec(), b"v".to_vec());
    batch.put(b"k".to_vec(), b"w".to_vec());
    batch.delete(b"k".to_vec());
    assert_eq!(batch.len(), 3);
    assert!(!batch.is_empty());
    assert_eq!(
        batch.records()[1],
        BatchRecord::Put { key: b"k".to_vec(), value: b"w".to_vec() }
    );
}

#[test]
fn truncated_payload_is_corruption() {
    let mut batch = WriteBatch::new();
    batch.put(b"abc".to_vec(), b"def".to_vec());
    let payload = batch.encode_with_sequence(1);
    for cut in 0..payload.len() {
        let result = WriteBatch::decode_payload(&payload[..cut]);
        assert!(matches!(result, Err(Error::Corruption(_))), "cut at {cut}");
    }
}

#[test]
fn trailing_bytes_are_corruption() {
    let mut batch = WriteBatch::new();
    batch.delete(b"x".to_vec());
    let mut payload = batch.encode_with_sequence(9);
    payload.push(0);
    assert!(matches!(WriteBatch::decode_payload(&payload), Err(Error::Corruption(_))));
}

#[test]
fn unknown_record_tag_is_corruption() {
    let mut batch = WriteBatch::new();
    batch.delete(b"x".to_vec());
    let mut payload = batch.encode_with_sequence(9);
    // One-byte varints for the count and the sequence, then the first record's tag.
    payload[2] = 0x7f;
    assert!(matches!(WriteBatch::decode_payload(&payload), Err(Error::Corruption(_))));
}

#[test]
fn delete_with_value_is_corruption() {
    // count 1, sequence 5, tag 2 (delete), key "k", value "v"
    let payload = vec![1u8, 5, 2, 1, b'k', 1, b'v'];
    assert!(matches!(WriteBatch::decode_payload(&payload), Err(Error::Corruption(_))));
}
