use tylsmdb::Error;

#[test]
fn errors_read_as_text() {
    assert_eq!(Error::InvalidArgument("bad key".to_string()).to_string(), "invalid argument: bad key");
    assert_eq!(Error::Corruption("checksum".to_string()).to_string(), "corruption: checksum");
    assert_eq!(Error::Closed.to_string(), "database is closed");
    assert_eq!(Error::Unsupported("merge").to_string(), "unsupported feature: merge");
    assert_eq!(Error::TransactionConflict("k".to_string()).to_string(), "transaction conflict: k");
    let io = Error::Io(std::io::Error::new(std::io::ErrorKind::Other, "disk gone"));
    assert_eq!(io.to_string(), "io error: disk gone");
}

#[test]
fn io_errors_convert() {
    let e: Error = std::io::Error::from(std::io::ErrorKind::UnexpectedEof).into();
    assert!(matches!(e, Error::Io(_)));
}
