use std::sync::Arc;

use tylsmdb::iterator::StorageIterator;
use tylsmdb::key::{InternalKey, ValueType};
use tylsmdb::memtable::ValueRecord;
use tylsmdb::table::block_builder::BlockBuilder;
use tylsmdb::table::block::Block;
use tylsmdb::table::block_iterator::BlockIterator;
use tylsmdb::table::builder::SSTableBuilder;
use tylsmdb::table::format::{
    decode_footer, encode_footer, BlockHandle, CompressionType,
};
use tylsmdb::table::reader::{read_block, SSTableReader};
use tylsmdb::util::crc::crc32c;
use tylsmdb::cache::BlockCache;
use tylsmdb::Error;

#[test]
fn format_block_handle_fixed_roundtrip() {
    let handle = BlockHandle::new(7, 11);
    let mut encoded = Vec::new();
    handle.encode_fixed(&mut encoded);

    assert_eq!(BlockHandle::decode_fixed(&encoded).expect("decode"), handle);
}

#[test]
fn format_tests_block_handle_fixed_roundtrip() {
    let handle = BlockHandle::new(7, 11);
    let mut encoded = Vec::new();
    handle.encode_fixed(&mut encoded);

    assert_eq!(BlockHandle::decode_fixed(&encoded).expect("decode"), handle);
}

#[test]
fn short_block_handle_is_corruption() {
    assert!(matches!(BlockHandle::decode_fixed(&[0u8; 15]), Err(Error::Corruption(_))));
}

#[test]
fn footer_roundtrips_and_checks_magic() {
    let footer = encode_footer(BlockHandle::new(1, 2), BlockHandle::new(3, 4));
    let (props, index) = decode_footer(&footer).expect("decode footer");
    assert_eq!(props, BlockHandle::new(1, 2));
    assert_eq!(index, BlockHandle::new(3, 4));
    let mut bad = footer.clone();
    let last = bad.len() - 1;
    bad[last] ^= 0xff;
    assert!(matches!(decode_footer(&bad), Err(Error::Corruption(_))));
}

#[test]
fn compression_type_codes() {
    assert_eq!(CompressionType::NoCompression.code(), 0);
    assert_eq!(CompressionType::Zstd.code(), 1);
    assert_eq!(CompressionType::from_u8(1).expect("zstd"), CompressionType::Zstd);
    assert!(matches!(CompressionType::from_u8(2), Err(Error::Corruption(_))));
}

#[test]
fn block_roundtrip_with_prefix_compression() {
    let mut builder = BlockBuilder::new(2);
    builder.add(
        InternalKey::new(b"account:001".to_vec(), 3, ValueType::Put),
        &ValueRecord::Put(b"alice".to_vec()),
    );
    builder.add(
        InternalKey::new(b"account:002".to_vec(), 2, ValueType::Put),
        &ValueRecord::Put(b"bob".to_vec()),
    );
    builder.add(
        InternalKey::new(b"account:002".to_vec(), 1, ValueType::Delete),
        &ValueRecord::Delete,
    );

    let block = builder.finish();
    assert!(
        block.len() < 80,
        "prefix compression should keep this compact"
    );

    let mut iter = BlockIterator::new(block).expect("decode block");
    iter.seek_to_first();

    assert_eq!(iter.key().expect("first key").user_key(), b"account:001");
    assert_eq!(
        iter.value().expect("first value"),
        &ValueRecord::Put(b"alice".to_vec())
    );

    iter.next().expect("next");
    assert_eq!(iter.key().expect("second key").user_key(), b"account:002");
    assert_eq!(iter.key().expect("second key").sequence(), 2);

    iter.seek(&InternalKey::new(
        b"account:002".to_vec(),
        u64::MAX,
        ValueType::Put,
    ))
    .expect("seek account:002");
    assert_eq!(iter.key().expect("seek key").user_key(), b"account:002");
}

fn build_sample_table() -> Vec<u8> {
    let mut builder = SSTableBuilder::new(64);
    builder
        .add(
            InternalKey::new(b"a".to_vec(), 3, ValueType::Put),
            &ValueRecord::Put(b"new".to_vec()),
        )
        .expect("add a new");
    builder
        .add(
            InternalKey::new(b"a".to_vec(), 1, ValueType::Put),
            &ValueRecord::Put(b"old".to_vec()),
        )
        .expect("add a old");
    builder
        .add(
            InternalKey::new(b"b".to_vec(), 2, ValueType::Delete),
            &ValueRecord::Delete,
        )
        .expect("add b delete");
    builder
        .add(
            InternalKey::new(b"c".to_vec(), 1, ValueType::Put),
            &ValueRecord::Put(b"value".to_vec()),
        )
        .expect("add c");
    builder.finish().expect("finish table")
}

fn build_table(mut entries: Vec<(InternalKey, ValueRecord)>) -> Vec<u8> {
    entries.sort_by(|(left, _), (right, _)| left.cmp(right));
    let mut builder = SSTableBuilder::new(64);
    for (key, value) in entries {
        builder.add(key, &value).expect("add entry");
    }
    builder.finish().expect("finish table")
}

fn put(key: &[u8], sequence: u64, value: &[u8]) -> (InternalKey, ValueRecord) {
    (
        InternalKey::new(key.to_vec(), sequence, ValueType::Put),
        ValueRecord::Put(value.to_vec()),
    )
}

#[test]
fn table_builder_reader_roundtrip() {
    let image = build_sample_table();

    let reader = SSTableReader::open(image).expect("open table");
    assert_eq!(
        reader.get(b"a", 10).expect("get a"),
        Some(ValueRecord::Put(b"new".to_vec()))
    );
    assert_eq!(
        reader.get(b"b", 10).expect("get b"),
        Some(ValueRecord::Delete)
    );
    assert_eq!(reader.get(b"missing", 10).expect("get missing"), None);
    assert_eq!(reader.smallest_key().expect("smallest").user_key(), b"a");
    assert_eq!(reader.largest_key().expect("largest").user_key(), b"c");

    let mut iter = reader.iter().expect("iter");
    let mut rows = Vec::new();
    while let Some((key, value)) = iter.next_entry() {
        rows.push((key.user_key().to_vec(), key.sequence(), value));
    }
    assert_eq!(rows.len(), 4);
    assert_eq!(rows[0].0, b"a");
}

#[test]
fn reader_rejects_corrupt_block_checksum() {
    let mut bytes = build_sample_table();
    bytes[0] ^= 0xff;

    let reader = SSTableReader::open(bytes).expect("open table metadata");
    assert!(
        reader.get(b"a", 10).is_err(),
        "corrupt data block checksum should be rejected"
    );
}

#[test]
fn bloom_filter_has_no_false_negatives() {
    let keys = [b"alpha".as_slice(), b"beta".as_slice(), b"gamma".as_slice()];
    let image = build_table(
        keys.iter()
            .enumerate()
            .map(|(index, key)| put(key, (index + 1) as u64, b"value"))
            .collect(),
    );

    let reader = SSTableReader::open(image).expect("open table");

    for key in keys {
        assert!(reader.might_contain(key), "filter must not hide {key:?}");
        assert_eq!(
            reader.get(key, 10).expect("get filtered key"),
            Some(ValueRecord::Put(b"value".to_vec()))
        );
    }
}

#[test]
fn older_read_sequence_sees_older_version_in_table() {
    let reader = SSTableReader::open(build_sample_table()).expect("open table");
    assert_eq!(
        reader.get(b"a", 2).expect("get a at 2"),
        Some(ValueRecord::Put(b"old".to_vec()))
    );
    assert_eq!(reader.get(b"a", 0).expect("get a at 0"), None);
    assert_eq!(reader.get(b"b", 1).expect("get b at 1"), None);
}

#[test]
fn entries_come_back_in_order() {
    let reader = SSTableReader::open(build_sample_table()).expect("open table");
    let entries = reader.entries().expect("entries");
    let keys: Vec<(Vec<u8>, u64)> = entries
        .iter()
        .map(|(k, _)| (k.user_key().to_vec(), k.sequence()))
        .collect();
    assert_eq!(
        keys,
        vec![(b"a".to_vec(), 3), (b"a".to_vec(), 1), (b"b".to_vec(), 2), (b"c".to_vec(), 1)]
    );
}

#[test]
fn too_small_image_is_corruption() {
    assert!(matches!(SSTableReader::open(vec![0u8; 10]), Err(Error::Corruption(_))));
}

fn framed(stored: &[u8], compression: u8) -> Vec<u8> {
    let mut file = stored.to_vec();
    file.push(compression);
    let mut checked = vec![compression];
    checked.extend_from_slice(stored);
    file.extend_from_slice(&crc32c(&checked).to_le_bytes());
    file
}

#[test]
fn zstd_blocks_are_decompressed() {
    let plain = b"a block of bytes, a block of bytes, a block of bytes".to_vec();
    let compressed = zstd::stream::encode_all(plain.as_slice(), 3).expect("compress");
    assert_ne!(compressed, plain);
    let file = framed(&compressed, 1);
    let block = read_block(&file, BlockHandle::new(0, compressed.len() as u64)).expect("read");
    assert_eq!(block, plain);
}

#[test]
fn undecodable_zstd_block_is_io_error() {
    let garbage = b"not zstd at all".to_vec();
    let file = framed(&garbage, 1);
    let result = read_block(&file, BlockHandle::new(0, garbage.len() as u64));
    assert!(matches!(result, Err(Error::Io(_))));
}

#[test]
fn block_past_the_end_is_io_error() {
    let file = framed(b"abc", 0);
    assert!(matches!(read_block(&file, BlockHandle::new(0, 10)), Err(Error::Io(_))));
    assert_eq!(read_block(&file, BlockHandle::new(0, 3)).expect("plain block"), b"abc".to_vec());
}

#[test]
fn unknown_compression_is_corruption() {
    let file = framed(b"abc", 7);
    assert!(matches!(read_block(&file, BlockHandle::new(0, 3)), Err(Error::Corruption(_))));
}

#[test]
fn storage_iterator_walks_and_seeks_block_by_block() {
    let entries: Vec<(InternalKey, ValueRecord)> = (0..40u32)
        .map(|i| put(format!("key{i:03}").as_bytes(), 1, b"some value bytes"))
        .collect();
    let table = Arc::new(SSTableReader::open(build_table(entries)).expect("open"));
    let mut iter = SSTableReader::storage_iter(&table).expect("iter");
    let mut count = 0;
    while iter.is_valid() {
        assert_eq!(iter.key().user_key(), format!("key{count:03}").as_bytes());
        assert_eq!(iter.value(), &ValueRecord::Put(b"some value bytes".to_vec()));
        iter.next().expect("next");
        count += 1;
    }
    assert_eq!(count, 40);
    iter.seek(&InternalKey::new(b"key025".to_vec(), u64::MAX, ValueType::Put)).expect("seek");
    assert_eq!(iter.key().user_key(), b"key025");
    iter.seek(&InternalKey::new(b"key0255".to_vec(), u64::MAX, ValueType::Put)).expect("seek between");
    assert_eq!(iter.key().user_key(), b"key026");
    iter.seek(&InternalKey::new(b"zzz".to_vec(), u64::MAX, ValueType::Put)).expect("seek past end");
    assert!(!iter.is_valid());
}

#[test]
fn storage_iterator_reports_corrupt_blocks() {
    let mut bytes = build_sample_table();
    bytes[0] ^= 0xff;
    let table = Arc::new(SSTableReader::open(bytes).expect("open metadata"));
    assert!(SSTableReader::storage_iter(&table).is_err());
}

#[test]
fn checksum_and_footer_failures_are_corruption() {
    let mut bytes = build_sample_table();
    bytes[0] ^= 0xff;
    let reader = SSTableReader::open(bytes).expect("open table metadata");
    assert!(matches!(reader.get(b"a", 10), Err(Error::Corruption(_))));
    let mut cache = BlockCache::new(1 << 20);
    assert!(matches!(reader.get_with_cache(b"a", 10, 1, Some(&mut cache), true), Err(Error::Corruption(_))));

    let mut bytes = build_sample_table();
    let last = bytes.len() - 1;
    bytes[last] ^= 0xff;
    assert!(matches!(SSTableReader::open(bytes), Err(Error::Corruption(_))));
}

#[test]
fn block_cursor_passes_on_the_decode_error() {
    let mut builder = BlockBuilder::new(2);
    builder.add(InternalKey::new(b"a".to_vec(), 1, ValueType::Put), &ValueRecord::Put(b"x".to_vec()));
    let mut bad_entry = builder.finish();
    bad_entry[0] = 0x80;
    bad_entry[1] = 0x80;
    for bytes in [vec![1u8, 2], bad_entry] {
        let decoded = match Block::decode(&bytes) {
            Err(Error::Corruption(m)) => m,
            other => panic!("expected corruption, got {other:?}"),
        };
        match BlockIterator::new(bytes) {
            Err(Error::Corruption(m)) => assert_eq!(m, decoded),
            _ => panic!("expected corruption"),
        }
    }
}
