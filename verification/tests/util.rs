use tylsmdb::bound::{within_bounds, KeyBound};
use tylsmdb::util::bloom::{build_bloom_filter, BloomFilter};
use tylsmdb::util::coding::{get_fixed, get_var_u32, get_var_u64, put_fixed, put_var_u32, put_var_u64, take_bytes};
use tylsmdb::util::crc::crc32c;
use tylsmdb::util::sorted_map::SortedRows;
use tylsmdb::Error;

#[test]
fn varints_roundtrip_and_use_seven_bits_per_byte() {
    let mut buf = Vec::new();
    put_var_u32(&mut buf, 300);
    assert_eq!(buf, vec![0xac, 0x02]);
    put_var_u64(&mut buf, u64::MAX);
    assert_eq!(buf.len(), 12);
    let (a, pos) = get_var_u32(&buf, 0).expect("u32");
    assert_eq!((a, pos), (300, 2));
    let (b, end) = get_var_u64(&buf, pos).expect("u64");
    assert_eq!((b, end), (u64::MAX, 12));
}

#[test]
fn truncated_or_overlong_varints_are_corruption() {
    assert!(matches!(get_var_u32(&[0x80], 0), Err(Error::Corruption(_))));
    assert!(matches!(get_var_u32(&[0xff, 0xff, 0xff, 0xff, 0x7f], 0), Err(Error::Corruption(_))));
    assert!(matches!(get_var_u64(&[], 0), Err(Error::Corruption(_))));
}

#[test]
fn fixed_width_little_endian() {
    let mut buf = Vec::new();
    put_fixed(&mut buf, 0x0102_0304, 4);
    assert_eq!(buf, vec![4, 3, 2, 1]);
    assert_eq!(get_fixed(&buf, 0, 4), 0x0102_0304);
    assert_eq!(get_fixed(&buf, 1, 2), 0x0203);
}

#[test]
fn take_bytes_checks_bounds() {
    let src = [1u8, 2, 3];
    assert_eq!(take_bytes(&src, 1, 2).expect("in range"), &[2, 3]);
    assert!(matches!(take_bytes(&src, 2, 2), Err(Error::Corruption(_))));
}

#[test]
fn crc32c_check_value() {
    assert_eq!(crc32c(b"123456789"), 0xE306_9283);
    assert_eq!(crc32c(b""), 0);
}

#[test]
fn bloom_filter_holds_every_key_it_was_built_from() {
    let keys: Vec<Vec<u8>> = (0..100u32).map(|i| format!("key{i}").into_bytes()).collect();
    let bytes = build_bloom_filter(&keys);
    let filter = BloomFilter::from_bytes(&bytes).expect("filter");
    for key in &keys {
        assert!(filter.may_contain(key));
    }
    assert!(BloomFilter::from_bytes(&[7]).is_none());
}

#[test]
fn bounds_include_and_exclude() {
    let lo = KeyBound::Included(b"b".to_vec());
    let hi = KeyBound::Excluded(b"d".to_vec());
    assert!(within_bounds(b"b", &lo, &hi));
    assert!(within_bounds(b"c", &lo, &hi));
    assert!(!within_bounds(b"d", &lo, &hi));
    assert!(!within_bounds(b"a", &lo, &hi));
    assert!(within_bounds(b"zzz", &KeyBound::Unbounded, &KeyBound::Unbounded));
}

#[test]
fn sorted_rows_keep_one_value_per_key() {
    let mut rows = SortedRows::new();
    rows.insert(b"b".to_vec(), b"1".to_vec());
    rows.insert(b"a".to_vec(), b"2".to_vec());
    rows.insert(b"b".to_vec(), b"3".to_vec());
    rows.remove(b"a");
    rows.remove(b"zz");
    assert_eq!(rows.into_rows(), vec![(b"b".to_vec(), b"3".to_vec())]);
}
