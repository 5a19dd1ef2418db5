use flint_core::FlintError;

#[test]
fn error_messages_name_their_cause() {
    assert_eq!(
        FlintError::InvalidDuration("cost must be > 0".to_string()).message(),
        "invalid duration: cost must be > 0"
    );
    assert_eq!(FlintError::UnsupportedSnapshot(999).message(), "unsupported snapshot format version: 999");
    assert_eq!(
        FlintError::CorruptLog { line: 12, message: "expected value".to_string() }.message(),
        "corrupt log at line 12: expected value"
    );
    assert_eq!(
        FlintError::DataDirLocked { path: "/tmp/x".to_string() }.message(),
        "data directory is already locked: /tmp/x"
    );
    assert_eq!(FlintError::LimitNotConfigured("missing".to_string()).message(), "limit is not configured: missing");
    assert_eq!(FlintError::Io("denied".to_string()).message(), "io error: denied");
    assert_eq!(FlintError::Json("eof".to_string()).message(), "json error: eof");
    assert_eq!(FlintError::UnsupportedAlgorithm("x".to_string()).message(), "unsupported algorithm: x");
    assert_eq!(
        FlintError::StorageIntegrity("bad".to_string()).message(),
        "storage integrity error: bad"
    );
}
