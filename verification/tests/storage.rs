use flint_core::{
    check_snapshot_envelope, constant_time_eq, hex_sha256, replay_lines, snapshot_string_checksum,
    verify_entry_checksum, verify_snapshot_checksum, Algorithm, Event, FlintError, LimitConfig,
    LineParse, LogLine, LOG_FORMAT_VERSION, SNAPSHOT_FORMAT_VERSION,
};

fn configured(key: &str) -> Event {
    Event::LimitConfigured {
        config: LimitConfig {
            key: key.to_string(),
            rate: 1,
            per_millis: 60_000,
            algorithm: Algorithm::TokenBucket,
        },
    }
}

fn entry_line(text: &str, payload: &[u8], event: Event) -> LogLine {
    LogLine {
        text: text.to_string(),
        parsed: LineParse::Entry {
            version: Some(LOG_FORMAT_VERSION),
            checksum: Some(hex_sha256(payload)),
            payload: payload.to_vec(),
            event,
        },
    }
}

fn malformed_line(text: &str, eof: bool) -> LogLine {
    LogLine {
        text: text.to_string(),
        parsed: LineParse::Malformed { eof, message: "expected value".to_string() },
    }
}

#[test]
fn sha256_is_written_in_lower_case_hex() {
    assert_eq!(
        hex_sha256(b"abc"),
        "ba7816bf8f01cfea414140de5dae2223b00361a396177a9cb410ff61f20015ad"
    );
    assert_eq!(
        hex_sha256(b""),
        "e3b0c44298fc1c149afbf4c8996fb92427ae41e4649b934ca495991b7852b855"
    );
    assert_eq!(snapshot_string_checksum("abc"), hex_sha256(b"abc"));
}

#[test]
fn constant_time_eq_compares_contents() {
    assert!(constant_time_eq(b"abc", b"abc"));
    assert!(!constant_time_eq(b"abc", b"abd"));
    assert!(!constant_time_eq(b"abc", b"ab"));
    assert!(constant_time_eq(b"", b""));
}

#[test]
fn doctor_fails_on_corrupt_middle_log_record() {
    let lines = vec![
        entry_line("{\"event\":1}", b"one", configured("x")),
        malformed_line("{bad json", false),
        entry_line("{\"event\":2}", b"two", configured("y")),
    ];
    match replay_lines(&lines) {
        Err(FlintError::CorruptLog { line, .. }) => assert_eq!(line, 2),
        other => panic!("unexpected result: {other:?}"),
    }
}

#[test]
fn truncated_final_record_ends_the_log() {
    let lines = vec![
        entry_line("{\"event\":1}", b"one", configured("x")),
        malformed_line("{\"ts\":\"2026", true),
        malformed_line("   ", true),
    ];
    let events = replay_lines(&lines).unwrap();
    assert_eq!(events.len(), 1);
}

#[test]
fn truncated_record_in_the_middle_is_fatal() {
    let lines = vec![
        malformed_line("{\"ts\":\"2026", true),
        entry_line("{\"event\":1}", b"one", configured("x")),
    ];
    assert!(matches!(replay_lines(&lines), Err(FlintError::CorruptLog { line: 1, .. })));
}

#[test]
fn blank_lines_are_skipped() {
    let lines = vec![
        malformed_line("", true),
        entry_line("{\"event\":1}", b"one", configured("x")),
        malformed_line(" \t ", true),
        entry_line("{\"event\":2}", b"two", configured("y")),
    ];
    assert_eq!(replay_lines(&lines).unwrap().len(), 2);
}

#[test]
fn aof_checksum_mismatch_is_fatal() {
    let expected = hex_sha256(b"{\"rate\":1}");
    match verify_entry_checksum(Some(&expected), Some(1), b"{\"rate\":2}", 1) {
        Err(FlintError::StorageIntegrity(message)) => {
            assert!(message.contains("AOF checksum mismatch"));
            assert_eq!(message, "AOF checksum mismatch at line 1");
        }
        other => panic!("unexpected result: {other:?}"),
    }
    assert!(verify_entry_checksum(Some(&expected), Some(1), b"{\"rate\":1}", 1).is_ok());
}

#[test]
fn aof_checksummed_record_requires_format_version() {
    let expected = hex_sha256(b"payload");
    match verify_entry_checksum(Some(&expected), None, b"payload", 3) {
        Err(FlintError::StorageIntegrity(message)) => {
            assert!(message.contains("missing format version"));
            assert_eq!(message, "AOF checksummed record at line 3 is missing format version");
        }
        other => panic!("unexpected result: {other:?}"),
    }
}

#[test]
fn aof_checksummed_record_rejects_future_format_version() {
    let expected = hex_sha256(b"payload");
    match verify_entry_checksum(Some(&expected), Some(999), b"payload", 1) {
        Err(FlintError::StorageIntegrity(message)) => {
            assert!(message.contains("unsupported AOF format version 999"));
        }
        other => panic!("unexpected result: {other:?}"),
    }
}

#[test]
fn records_without_checksum_pass() {
    assert!(verify_entry_checksum(None, None, b"", 1).is_ok());
    assert!(verify_entry_checksum(None, Some(5), b"anything", 1).is_ok());
}

#[test]
fn snapshot_checksum_mismatch_is_fatal() {
    let original = "{\"rate\":1}";
    let checksum = snapshot_string_checksum(original);
    assert!(check_snapshot_envelope(SNAPSHOT_FORMAT_VERSION, &checksum, original).is_ok());
    let tampered = original.replace("\"rate\":1", "\"rate\":2");
    assert_ne!(tampered, original);
    match check_snapshot_envelope(SNAPSHOT_FORMAT_VERSION, &checksum, &tampered) {
        Err(FlintError::StorageIntegrity(message)) => {
            assert!(message.contains("snapshot checksum mismatch"));
        }
        other => panic!("unexpected result: {other:?}"),
    }
    assert!(matches!(
        check_snapshot_envelope(2, &checksum, original),
        Err(FlintError::UnsupportedSnapshot(2))
    ));
    assert!(verify_snapshot_checksum("abc", original).is_err());
}
