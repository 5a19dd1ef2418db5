use flint_core::{duration_in_range, parse_duration, parse_duration_millis, Algorithm, FlintError, TopBy};

#[test]
fn parses_duration_suffixes() {
    assert_eq!(parse_duration("10s").unwrap(), 10);
    assert_eq!(parse_duration("1m").unwrap(), 60);
    assert_eq!(parse_duration("2h").unwrap(), 7200);
    assert_eq!(parse_duration("1d").unwrap(), 86400);
    assert!(parse_duration("100ms").is_err());
}

#[test]
fn duration_without_suffix_counts_seconds() {
    assert_eq!(parse_duration("45").unwrap(), 45);
    assert_eq!(parse_duration("  3m \n").unwrap(), 180);
}

#[test]
fn duration_errors_carry_the_trimmed_text() {
    match parse_duration("  5x ") {
        Err(FlintError::InvalidDuration(text)) => assert_eq!(text, "5x"),
        other => panic!("unexpected result: {other:?}"),
    }
    assert!(matches!(parse_duration(""), Err(FlintError::InvalidDuration(_))));
    assert!(matches!(parse_duration("   "), Err(FlintError::InvalidDuration(_))));
    assert!(matches!(parse_duration("m"), Err(FlintError::InvalidDuration(_))));
    assert!(matches!(parse_duration("-1s"), Err(FlintError::InvalidDuration(_))));
    assert!(matches!(
        parse_duration("99999999999999999999s"),
        Err(FlintError::InvalidDuration(_))
    ));
}

#[test]
fn limit_periods_are_read_in_milliseconds() {
    assert_eq!(parse_duration_millis("250ms").unwrap(), 250);
    assert_eq!(parse_duration_millis("1s").unwrap(), 1000);
    assert_eq!(parse_duration_millis("1m").unwrap(), 60_000);
    assert_eq!(parse_duration_millis("2h").unwrap(), 7_200_000);
    assert_eq!(parse_duration_millis("1d").unwrap(), 86_400_000);
    assert_eq!(parse_duration_millis("7").unwrap(), 7000);
    assert!(parse_duration_millis("1 m").is_err());
    assert!(parse_duration_millis("1w").is_err());
}

#[test]
fn algorithm_names_round_trip() {
    for algorithm in [
        Algorithm::TokenBucket,
        Algorithm::SlidingWindowLog,
        Algorithm::FixedWindowCounter,
    ] {
        assert_eq!(Algorithm::parse(algorithm.name()).unwrap(), algorithm);
    }
    match Algorithm::parse("leaky_bucket") {
        Err(FlintError::UnsupportedAlgorithm(name)) => assert_eq!(name, "leaky_bucket"),
        other => panic!("unexpected result: {other:?}"),
    }
}

#[test]
fn top_selectors_parse() {
    assert_eq!(TopBy::parse("allowed"), Some(TopBy::Allowed));
    assert_eq!(TopBy::parse("denied"), Some(TopBy::Denied));
    assert_eq!(TopBy::parse("busiest"), None);
}

#[test]
fn durations_past_u64_are_out_of_range() {
    assert!(duration_in_range("10s", false));
    assert!(duration_in_range("bogus", true));
    assert!(duration_in_range("18446744073709551615", false));
    assert!(!duration_in_range("18446744073709551615m", false));
    assert!(!duration_in_range("18446744073709551615", true));
    assert!(duration_in_range("18446744073709551615ms", true));
    assert!(!duration_in_range("307445734561825861d", false));
    assert!(duration_in_range("99999999999999999999", false));
}
