use flint_core::{
    authorize, check_server_start, default_algorithm, default_cost, error_status, is_value_error,
    multi_items_from_cli, parse_u64, CliError, FlintError, IntErrorKind, ServerStartError,
};

fn strings(values: &[&str]) -> Vec<String> {
    values.iter().map(|v| v.to_string()).collect()
}

#[test]
fn cli_costs_apply_to_their_keys() {
    let items = multi_items_from_cli(
        strings(&["user:42", "org:acme", "route:/v1/chat"]),
        strings(&["org:acme=10"]),
    )
    .unwrap();
    let pairs: Vec<(String, u64)> = items.into_iter().map(|i| (i.key, i.cost)).collect();
    assert_eq!(
        pairs,
        vec![
            ("user:42".to_string(), 1),
            ("org:acme".to_string(), 10),
            ("route:/v1/chat".to_string(), 1)
        ]
    );
}

#[test]
fn cli_cost_is_taken_by_the_first_check_of_a_key() {
    let items = multi_items_from_cli(strings(&["a", "a"]), strings(&["a=4"])).unwrap();
    assert_eq!(items[0].cost, 4);
    assert_eq!(items[1].cost, 1);
}

#[test]
fn cli_cost_errors() {
    assert!(matches!(
        multi_items_from_cli(strings(&["a"]), strings(&["a"])),
        Err(CliError::CostWithoutKey(arg)) if arg == "a"
    ));
    assert!(matches!(
        multi_items_from_cli(strings(&["a"]), strings(&["a=x"])),
        Err(CliError::BadCost(IntErrorKind::InvalidDigit))
    ));
    assert!(matches!(
        multi_items_from_cli(strings(&["a"]), strings(&["a=1", "a=2"])),
        Err(CliError::DuplicateCost(key)) if key == "a"
    ));
    match multi_items_from_cli(strings(&["a"]), strings(&["b=1", "a=2", "c=3"])) {
        Err(CliError::UnknownCostKeys(keys)) => assert_eq!(keys, strings(&["b", "c"])),
        other => panic!("unexpected result: {other:?}"),
    }
    let split = multi_items_from_cli(strings(&["k=v"]), strings(&["k=v=3"]));
    assert!(matches!(split, Err(CliError::BadCost(IntErrorKind::InvalidDigit))));
}

#[test]
fn u64_parsing_follows_from_str() {
    assert_eq!(parse_u64("42"), Ok(42));
    assert_eq!(parse_u64("+7"), Ok(7));
    assert_eq!(parse_u64("18446744073709551615"), Ok(u64::MAX));
    assert_eq!(parse_u64(""), Err(IntErrorKind::Empty));
    assert_eq!(parse_u64("+"), Err(IntErrorKind::InvalidDigit));
    assert_eq!(parse_u64("-1"), Err(IntErrorKind::InvalidDigit));
    assert_eq!(parse_u64(" 1"), Err(IntErrorKind::InvalidDigit));
    assert_eq!(parse_u64("18446744073709551616"), Err(IntErrorKind::PosOverflow));
    for text in ["0", "1", "+12", "", "+", "x1", "99999999999999999999", "18446744073709551616"] {
        assert_eq!(parse_u64(text).ok(), text.parse::<u64>().ok());
    }
}

#[test]
fn bearer_token_must_match_exactly() {
    assert!(authorize(None, None));
    assert!(authorize(None, Some("anything")));
    assert!(authorize(Some("dev-secret"), Some("Bearer dev-secret")));
    assert!(!authorize(Some("dev-secret"), None));
    assert!(!authorize(Some("dev-secret"), Some("Bearer dev-secre")));
    assert!(!authorize(Some("dev-secret"), Some("bearer dev-secret")));
    assert!(!authorize(Some("dev-secret"), Some("dev-secret")));
    assert!(!authorize(Some(""), Some("Bearer")));
    assert!(authorize(Some(""), Some("Bearer ")));
}

#[test]
fn errors_map_to_http_statuses() {
    assert_eq!(error_status(&FlintError::InvalidDuration("x".into())), 400);
    assert_eq!(error_status(&FlintError::UnsupportedAlgorithm("x".into())), 400);
    assert_eq!(error_status(&FlintError::LimitNotConfigured("x".into())), 400);
    assert_eq!(error_status(&FlintError::DataDirLocked { path: "p".into() }), 409);
    assert_eq!(error_status(&FlintError::UnsupportedSnapshot(2)), 500);
    assert_eq!(error_status(&FlintError::StorageIntegrity("x".into())), 500);
    assert_eq!(error_status(&FlintError::Io("x".into())), 500);
    assert!(is_value_error(&FlintError::InvalidDuration("x".into())));
    assert!(!is_value_error(&FlintError::LimitNotConfigured("x".into())));
}

#[test]
fn server_refuses_public_bind_without_token() {
    assert_eq!(check_server_start(false, false, 128), Err(ServerStartError::TokenRequired));
    assert_eq!(check_server_start(true, false, 0), Err(ServerStartError::NoBlockingWorkers));
    assert_eq!(check_server_start(false, true, 1), Ok(()));
    assert_eq!(check_server_start(true, false, 1), Ok(()));
}

#[test]
fn defaults() {
    assert_eq!(default_algorithm(), "token_bucket");
    assert_eq!(default_cost(), 1);
}
