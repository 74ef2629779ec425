use tylsmdb::env::file::{manifest_file_name, parse_manifest_number, table_file_name, wal_file_name};
use tylsmdb::env::{current_file_contents, manifest_name_from_current, WritableFileOptions};
use tylsmdb::Error;

#[test]
fn current_points_to_manifest() {
    let contents = current_file_contents("MANIFEST-000001");
    assert_eq!(contents, "MANIFEST-000001\n");
    assert_eq!(
        manifest_name_from_current(&contents).expect("read current helper"),
        "MANIFEST-000001"
    );
}

#[test]
fn current_with_only_line_breaks_is_corruption() {
    assert!(matches!(manifest_name_from_current("\r\n\n"), Err(Error::Corruption(_))));
    assert!(matches!(manifest_name_from_current(""), Err(Error::Corruption(_))));
    assert_eq!(manifest_name_from_current("M\r\n").expect("trim"), "M");
}

#[test]
fn file_names_are_zero_padded() {
    assert_eq!(wal_file_name(7), "000007.wal");
    assert_eq!(table_file_name(42), "000042.sst");
    assert_eq!(manifest_file_name(1), "MANIFEST-000001");
    assert_eq!(table_file_name(1234567), "1234567.sst");
    assert_eq!(wal_file_name(0), "000000.wal");
}

#[test]
fn manifest_numbers_parse_back() {
    assert_eq!(parse_manifest_number(&manifest_file_name(17)), Some(17));
    assert_eq!(parse_manifest_number("MANIFEST-+5"), Some(5));
    assert_eq!(parse_manifest_number("MANIFEST-"), None);
    assert_eq!(parse_manifest_number("MANIFEST-12a"), None);
    assert_eq!(parse_manifest_number("000001.sst"), None);
    assert_eq!(parse_manifest_number("MANIFEST-18446744073709551615"), Some(u64::MAX));
    assert_eq!(parse_manifest_number("MANIFEST-18446744073709551616"), None);
}

#[test]
fn writable_file_options() {
    let create = WritableFileOptions::create();
    assert!(create.create && create.truncate && !create.append && !create.read);
    let append = WritableFileOptions::append();
    assert!(append.create && !append.truncate && append.append && append.read);
}

#[test]
fn manifest_names_roundtrip() {
    for n in [0u64, 1, 42, 999_999, 1_000_000, u64::MAX] {
        assert_eq!(parse_manifest_number(&manifest_file_name(n)), Some(n));
        let name = manifest_file_name(n);
        assert_eq!(manifest_name_from_current(&current_file_contents(&name)).expect("current"), name);
    }
}
