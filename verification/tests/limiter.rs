use flint_core::{
    configure, Algorithm, CheckResult, Event, FlintError, KeyRecord, LimitConfig, LimitMetrics,
    MultiCheckItem,
    MultiCheckResult, State, TopBy,
};

const T0: i64 = 1_780_000_000_000;

fn apply(state: &mut State, event: Event) {
    assert!(state.can_apply(&event));
    state.apply_event(event);
}

fn limit(state: &mut State, key: &str, rate: u64, per: &str, algorithm: Algorithm) {
    let event = configure(key.to_string(), rate, per, algorithm).unwrap();
    apply(state, event);
}

fn check(state: &mut State, key: &str, cost: u64, now: i64) -> Result<CheckResult, FlintError> {
    let (result, event) = state.check_cost(key, cost, now)?;
    apply(state, event);
    Ok(result)
}

fn allow(state: &mut State, key: &str, now: i64) -> bool {
    check(state, key, 1, now).unwrap().allowed
}

fn check_all(state: &mut State, items: Vec<MultiCheckItem>, now: i64) -> Result<MultiCheckResult, FlintError> {
    let (result, event) = state.check_all(&items, now)?;
    apply(state, event);
    Ok(result)
}

fn item(key: &str, cost: u64) -> MultiCheckItem {
    MultiCheckItem { key: key.to_string(), cost }
}

/// Rebuilds a state from the events that it recorded, as reopening the log does.
fn reopen(state: &State) -> State {
    let mut fresh = State::new();
    for event in state.events() {
        apply(&mut fresh, event.clone());
    }
    fresh
}

/// Rebuilds a state from its parts, as loading a snapshot does.
fn reload_snapshot(state: &State) -> State {
    let mut fresh = State::new();
    for i in 0..state.key_count() {
        fresh.restore_record(state.key_at(i).clone(), state.record_at(i).clone());
    }
    for event in state.events() {
        fresh.restore_event(event.clone());
    }
    fresh
}

#[test]
fn token_bucket_denies_after_capacity_and_recovers_from_log() {
    let mut state = State::new();
    limit(&mut state, "api:user-42", 2, "1m", Algorithm::TokenBucket);
    assert!(allow(&mut state, "api:user-42", T0));
    assert!(allow(&mut state, "api:user-42", T0 + 1));
    assert!(!allow(&mut state, "api:user-42", T0 + 2));

    let mut state = reopen(&state);
    assert!(!allow(&mut state, "api:user-42", T0 + 3));
    assert_eq!(state.history("api:user-42").len(), 5);
    assert_eq!(state.status("api:user-42", T0 + 3).unwrap().total_denied, 2);
}

#[test]
fn concurrent_checks_do_not_over_allow() {
    let mut state = State::new();
    limit(&mut state, "api", 1, "1m", Algorithm::TokenBucket);
    let allowed = (0..100).filter(|_| allow(&mut state, "api", T0)).count();
    assert_eq!(allowed, 1);
}

#[test]
fn reset_unknown_key_returns_error() {
    let state = State::new();
    let err = state.reset_event("missing", T0).unwrap_err();
    assert!(matches!(err, FlintError::LimitNotConfigured(_)));
}

#[test]
fn fixed_window_resets_after_period() {
    let mut state = State::new();
    limit(&mut state, "x", 1, "100ms", Algorithm::FixedWindowCounter);
    assert!(allow(&mut state, "x", T0));
    assert!(!allow(&mut state, "x", T0 + 10));
    assert!(allow(&mut state, "x", T0 + 130));
}

#[test]
fn compaction_preserves_status_and_metrics() {
    let mut state = State::new();
    limit(&mut state, "x", 2, "1m", Algorithm::TokenBucket);
    assert!(allow(&mut state, "x", T0));
    assert!(allow(&mut state, "x", T0));
    assert!(!allow(&mut state, "x", T0));
    state.refresh_all_summaries(T0);
    let mut state = reload_snapshot(&state);
    let status = state.status("x", T0).unwrap();
    assert_eq!(status.remaining, 0);
    assert_eq!(status.total_allowed, 2);
    assert_eq!(status.total_denied, 1);
}

#[test]
fn token_bucket_supports_cost_based_checks() {
    let mut state = State::new();
    limit(&mut state, "tokens", 5, "1m", Algorithm::TokenBucket);

    let first = check(&mut state, "tokens", 3, T0).unwrap();
    assert!(first.allowed);
    assert_eq!(first.cost, 3);
    assert_eq!(first.remaining, 2);

    let denied = check(&mut state, "tokens", 3, T0).unwrap();
    assert!(!denied.allowed);
    assert_eq!(denied.remaining, 2);
    assert!(matches!(
        check(&mut state, "tokens", 6, T0),
        Err(FlintError::InvalidDuration(_))
    ));

    let mut state = reopen(&state);
    let status = state.status("tokens", T0).unwrap();
    assert_eq!(status.remaining, 2);
    assert_eq!(status.total_allowed, 1);
    assert_eq!(status.total_denied, 1);
    assert_eq!(status.total_allowed_cost, 3);
    assert_eq!(status.total_denied_cost, 3);
}

#[test]
fn fixed_and_sliding_windows_apply_cost() {
    let mut state = State::new();
    limit(&mut state, "fixed", 5, "1m", Algorithm::FixedWindowCounter);
    limit(&mut state, "sliding", 5, "1m", Algorithm::SlidingWindowLog);

    assert!(check(&mut state, "fixed", 4, T0).unwrap().allowed);
    assert!(!check(&mut state, "fixed", 2, T0).unwrap().allowed);
    assert!(check(&mut state, "sliding", 4, T0).unwrap().allowed);
    assert!(!check(&mut state, "sliding", 2, T0).unwrap().allowed);
}

#[test]
fn zero_cost_is_rejected() {
    let mut state = State::new();
    limit(&mut state, "x", 1, "1m", Algorithm::TokenBucket);
    assert!(matches!(
        check(&mut state, "x", 0, T0),
        Err(FlintError::InvalidDuration(_))
    ));
}

#[test]
fn check_all_consumes_all_limits_when_everything_passes() {
    let mut state = State::new();
    limit(&mut state, "user", 2, "1m", Algorithm::TokenBucket);
    limit(&mut state, "org", 10, "1m", Algorithm::TokenBucket);

    let result = check_all(&mut state, vec![item("user", 1), item("org", 7)], T0).unwrap();

    assert!(result.allowed);
    assert_eq!(result.denied_key, None);
    assert_eq!(state.status("user", T0).unwrap().remaining, 1);
    assert_eq!(state.status("org", T0).unwrap().remaining, 3);
    assert_eq!(state.history("user").len(), 2);
    assert_eq!(state.history("org").len(), 2);

    let mut state = reopen(&state);
    assert_eq!(state.status("user", T0).unwrap().remaining, 1);
    assert_eq!(state.status("org", T0).unwrap().remaining, 3);
}

#[test]
fn check_all_does_not_partially_consume_when_one_limit_denies() {
    let mut state = State::new();
    limit(&mut state, "user", 1, "1m", Algorithm::TokenBucket);
    limit(&mut state, "org", 10, "1m", Algorithm::TokenBucket);
    assert!(allow(&mut state, "user", T0));

    let result = check_all(&mut state, vec![item("user", 1), item("org", 7)], T0).unwrap();

    assert!(!result.allowed);
    assert_eq!(result.denied_key.as_deref(), Some("user"));
    assert_eq!(result.results.len(), 1);
    assert_eq!(state.status("org", T0).unwrap().remaining, 10);
    assert_eq!(state.status("org", T0).unwrap().total_allowed, 0);
    assert_eq!(state.status("user", T0).unwrap().total_denied, 1);
}

#[test]
fn check_all_rejects_duplicate_keys() {
    let mut state = State::new();
    limit(&mut state, "x", 1, "1m", Algorithm::TokenBucket);
    assert!(matches!(
        check_all(&mut state, vec![item("x", 1), item("x", 1)], T0),
        Err(FlintError::InvalidDuration(_))
    ));
}

#[test]
fn legacy_per_seconds_log_entries_are_migrated_to_millis() {
    let config = LimitConfig::from_wire(
        "legacy".to_string(),
        7,
        None,
        Some(60),
        Algorithm::TokenBucket,
    )
    .unwrap();
    let mut state = State::new();
    apply(&mut state, Event::LimitConfigured { config });
    let status = state.status("legacy", T0).unwrap();
    assert_eq!(status.rate, 7);
    assert_eq!(status.per_millis, 60_000);
}

#[test]
fn ten_thousand_keys_can_be_configured() {
    let mut state = State::new();
    for idx in 0..10_000 {
        limit(&mut state, &format!("k{idx}"), 1, "1m", Algorithm::TokenBucket);
    }
    assert_eq!(state.list(T0).len(), 10_000);
}

#[test]
fn configuration_refuses_zero_rate_and_zero_period() {
    match configure("x".to_string(), 0, "1m", Algorithm::TokenBucket) {
        Err(FlintError::InvalidDuration(msg)) => assert_eq!(msg, "rate must be greater than zero"),
        other => panic!("unexpected result: {other:?}"),
    }
    match configure("x".to_string(), 1, "0s", Algorithm::TokenBucket) {
        Err(FlintError::InvalidDuration(msg)) => assert_eq!(msg, "duration must be greater than zero"),
        other => panic!("unexpected result: {other:?}"),
    }
    assert!(matches!(
        configure("x".to_string(), 1, "soon", Algorithm::TokenBucket),
        Err(FlintError::InvalidDuration(_))
    ));
}

#[test]
fn over_capacity_message_names_cost_and_rate() {
    let mut state = State::new();
    limit(&mut state, "tokens", 5, "1m", Algorithm::TokenBucket);
    match check(&mut state, "tokens", 16, T0) {
        Err(FlintError::InvalidDuration(msg)) => {
            assert_eq!(msg, "cost 16 exceeds configured rate capacity 5")
        }
        other => panic!("unexpected result: {other:?}"),
    }
    match check(&mut state, "nowhere", 1, T0) {
        Err(FlintError::LimitNotConfigured(key)) => assert_eq!(key, "nowhere"),
        other => panic!("unexpected result: {other:?}"),
    }
}

#[test]
fn token_bucket_refills_in_proportion_to_time() {
    let mut state = State::new();
    limit(&mut state, "t", 10, "10s", Algorithm::TokenBucket);
    let first = check(&mut state, "t", 10, T0).unwrap();
    assert!(first.allowed);
    assert_eq!(first.remaining, 0);
    assert_eq!(first.reset_at, (T0 + 10_000) as i128);
    // One token flows back every second.
    let later = check(&mut state, "t", 3, T0 + 2_500).unwrap();
    assert!(!later.allowed);
    assert_eq!(later.remaining, 2);
    assert_eq!(later.reset_at, (T0 + 2_500 + 7_500) as i128);
    assert!(check(&mut state, "t", 3, T0 + 3_000).unwrap().allowed);
}

#[test]
fn sliding_window_frees_entries_one_period_later() {
    let mut state = State::new();
    limit(&mut state, "s", 2, "1s", Algorithm::SlidingWindowLog);
    assert!(allow(&mut state, "s", T0));
    assert!(allow(&mut state, "s", T0 + 400));
    let denied = check(&mut state, "s", 1, T0 + 900).unwrap();
    assert!(!denied.allowed);
    assert_eq!(denied.reset_at, (T0 + 1_000) as i128);
    assert!(allow(&mut state, "s", T0 + 1_000));
    assert!(!allow(&mut state, "s", T0 + 1_200));
    assert!(allow(&mut state, "s", T0 + 1_400));
}

#[test]
fn reset_gives_the_full_rate_back() {
    let mut state = State::new();
    limit(&mut state, "r", 3, "1h", Algorithm::FixedWindowCounter);
    assert!(check(&mut state, "r", 3, T0).unwrap().allowed);
    assert!(!allow(&mut state, "r", T0 + 1));
    let event = state.reset_event("r", T0 + 2).unwrap();
    apply(&mut state, event);
    let status = state.status("r", T0 + 2).unwrap();
    assert_eq!(status.remaining, 3);
    assert_eq!(status.last_reset_at, Some(T0 + 2));
    assert!(check(&mut state, "r", 3, T0 + 2).unwrap().allowed);
}

#[test]
fn history_lists_events_of_one_key() {
    let mut state = State::new();
    limit(&mut state, "a", 5, "1m", Algorithm::TokenBucket);
    limit(&mut state, "b", 5, "1m", Algorithm::TokenBucket);
    assert!(allow(&mut state, "a", T0));
    assert!(check_all(&mut state, vec![item("a", 1), item("b", 1)], T0).unwrap().allowed);
    assert_eq!(state.history("a").len(), 3);
    assert_eq!(state.history("b").len(), 2);
    assert_eq!(state.history("c").len(), 0);
}

#[test]
fn top_ranks_the_busiest_keys_first() {
    let mut state = State::new();
    limit(&mut state, "quiet", 1, "1h", Algorithm::TokenBucket);
    limit(&mut state, "busy", 1, "1h", Algorithm::TokenBucket);
    limit(&mut state, "medium", 1, "1h", Algorithm::TokenBucket);
    for _ in 0..5 {
        allow(&mut state, "busy", T0);
    }
    for _ in 0..3 {
        allow(&mut state, "medium", T0);
    }
    let top = state.top(TopBy::Denied, 2);
    assert_eq!(top.len(), 2);
    assert_eq!(top[0].key, "busy");
    assert_eq!(top[0].total_denied, 4);
    assert_eq!(top[1].key, "medium");
    assert_eq!(top[1].total_denied, 2);
    assert_eq!(state.top(TopBy::Allowed, 20).len(), 3);
}

#[test]
fn doctor_counts_limits_and_events() {
    let mut state = State::new();
    limit(&mut state, "a", 5, "1m", Algorithm::TokenBucket);
    assert!(allow(&mut state, "a", T0));
    let report = state.doctor_report(123, false);
    assert!(report.ok);
    assert_eq!(report.limits, 1);
    assert_eq!(report.history_events, 2);
    assert_eq!(report.aof_bytes, 123);
}

#[test]
fn token_bucket_allows_one_bucket_plus_refill_over_an_interval() {
    let mut state = State::new();
    limit(&mut state, "api", 2, "1s", Algorithm::TokenBucket);
    // Over 1500 ms a bucket of 2 per second allows at most 2 + 2 * 1.5 = 5.
    let mut allowed = 0;
    for step in 0..=150 {
        if allow(&mut state, "api", T0 + step * 10) {
            allowed += 1;
        }
    }
    assert_eq!(allowed, 5);
}

#[test]
fn windows_allow_at_most_the_rate_within_a_period() {
    let mut state = State::new();
    limit(&mut state, "sliding", 3, "1s", Algorithm::SlidingWindowLog);
    limit(&mut state, "fixed", 3, "1s", Algorithm::FixedWindowCounter);
    let mut sliding = 0;
    let mut fixed = 0;
    for step in 0..100 {
        if allow(&mut state, "sliding", T0 + step * 9) {
            sliding += 1;
        }
        if allow(&mut state, "fixed", T0 + step * 9) {
            fixed += 1;
        }
    }
    assert_eq!(sliding, 3);
    assert_eq!(fixed, 3);
}

#[test]
fn remaining_never_exceeds_the_rate() {
    let mut state = State::new();
    limit(&mut state, "t", 3, "1s", Algorithm::TokenBucket);
    limit(&mut state, "s", 3, "1s", Algorithm::SlidingWindowLog);
    limit(&mut state, "f", 3, "1s", Algorithm::FixedWindowCounter);
    for step in 0..50 {
        for key in ["t", "s", "f"] {
            let result = check(&mut state, key, 1 + (step % 3) as u64, T0 + step * 300).unwrap();
            assert!(result.remaining <= 3);
            assert!(state.status(key, T0 + step * 300).unwrap().remaining <= 3);
        }
    }
}

#[test]
fn check_all_denies_at_the_first_item_that_alone_would_be_denied() {
    let mut state = State::new();
    limit(&mut state, "a", 5, "1m", Algorithm::TokenBucket);
    limit(&mut state, "b", 1, "1m", Algorithm::TokenBucket);
    limit(&mut state, "c", 1, "1m", Algorithm::TokenBucket);
    assert!(allow(&mut state, "b", T0));
    assert!(allow(&mut state, "c", T0));
    let items = vec![item("a", 2), item("b", 1), item("c", 1)];
    // Alone, "a" would pass and "b" would be the first to be denied.
    let (alone_a, _) = state.check_cost("a", 2, T0).unwrap();
    let (alone_b, _) = state.check_cost("b", 1, T0).unwrap();
    assert!(alone_a.allowed && !alone_b.allowed);
    let result = check_all(&mut state, items, T0).unwrap();
    assert!(!result.allowed);
    assert_eq!(result.denied_key.as_deref(), Some("b"));
    assert_eq!(result.results.len(), 2);
    let a = state.status("a", T0).unwrap();
    assert_eq!((a.remaining, a.total_allowed, a.total_denied), (5, 0, 0));
    let b = state.status("b", T0).unwrap();
    assert_eq!((b.total_allowed, b.total_denied, b.total_denied_cost), (1, 1, 1));
    assert_eq!(state.history("c").len(), 2);
}

#[test]
fn doctor_list_and_top_count_the_same_keys() {
    let mut state = State::new();
    limit(&mut state, "x", 2, "1m", Algorithm::TokenBucket);
    limit(&mut state, "y", 2, "1m", Algorithm::FixedWindowCounter);
    limit(&mut state, "z", 2, "1m", Algorithm::SlidingWindowLog);
    allow(&mut state, "x", T0);
    check_all(&mut state, vec![item("y", 1), item("z", 2)], T0).unwrap();
    let listed = state.list(T0).len();
    assert_eq!(listed, 3);
    assert_eq!(state.doctor_report(0, false).limits, listed);
    assert_eq!(state.top(TopBy::Allowed, 100).len(), listed);
}

#[test]
fn all_or_nothing_counters_need_room_only_for_their_own_items() {
    let mut state = State::new();
    for key in ["a", "b", "c"] {
        limit(&mut state, key, 5, "1m", Algorithm::TokenBucket);
    }
    let config = state.config_for(&"a".to_string()).unwrap().clone();
    let metrics = LimitMetrics { total_allowed: u64::MAX - 1, ..LimitMetrics::zero() };
    state.restore_record(
        "a".to_string(),
        KeyRecord { config: Some(config), bucket: None, fixed: None, sliding: None, metrics: Some(metrics) },
    );
    let once = Event::AllowAll { items: vec![item("a", 1), item("b", 1), item("c", 1)], at: T0 };
    assert!(state.can_apply(&once));
    let twice = Event::AllowAll { items: vec![item("a", 1), item("a", 1)], at: T0 };
    assert!(!state.can_apply(&twice));
    apply(&mut state, once);
    assert_eq!(state.status("a", T0).unwrap().total_allowed, u64::MAX);
}

#[test]
fn reading_status_changes_no_later_check() {
    let mut watched = State::new();
    limit(&mut watched, "t", 4, "1s", Algorithm::TokenBucket);
    check(&mut watched, "t", 3, T0).unwrap();
    let mut quiet = reopen(&watched);
    for step in 1..20 {
        let _ = watched.status("t", T0 + step * 37);
    }
    let a = check(&mut watched, "t", 2, T0 + 800).unwrap();
    let b = check(&mut quiet, "t", 2, T0 + 800).unwrap();
    assert_eq!((a.allowed, a.remaining, a.reset_at), (b.allowed, b.remaining, b.reset_at));
}

#[test]
fn reloading_a_snapshot_keeps_every_key() {
    let mut state = State::new();
    limit(&mut state, "b", 2, "1m", Algorithm::FixedWindowCounter);
    limit(&mut state, "a", 2, "1m", Algorithm::TokenBucket);
    allow(&mut state, "a", T0);
    allow(&mut state, "b", T0);
    let mut reloaded = reload_snapshot(&state);
    assert_eq!(reloaded.key_count(), 2);
    assert_eq!(reloaded.key_at(0), "b");
    for key in ["a", "b"] {
        let x = state.status(key, T0).unwrap();
        let y = reloaded.status(key, T0).unwrap();
        assert_eq!((x.remaining, x.total_allowed, x.reset_at), (y.remaining, y.total_allowed, y.reset_at));
    }
    assert_eq!(reloaded.history("a").len(), 2);
}
