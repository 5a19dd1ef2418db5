use flint_core::{
    looks_like_snapshot_envelope, parse_multi_item, parse_multi_items, JsonNumber, JsonValue,
};

fn s(text: &str) -> JsonValue {
    JsonValue::String(text.to_string())
}

fn n(value: u64) -> JsonValue {
    JsonValue::Number(JsonNumber::PosInt(value))
}

fn obj(entries: Vec<(&str, JsonValue)>) -> JsonValue {
    JsonValue::Object(entries.into_iter().map(|(k, v)| (k.to_string(), v)).collect())
}

fn empty_state() -> JsonValue {
    obj(vec![
        ("configs", obj(vec![])),
        ("buckets", obj(vec![])),
        ("fixed", obj(vec![])),
        ("sliding", obj(vec![])),
        ("history", obj(vec![])),
        ("metrics", obj(vec![])),
    ])
}

#[test]
fn malformed_snapshot_envelope_does_not_fallback_to_legacy_snapshot() {
    let malformed_envelope = obj(vec![
        ("format_version", n(1)),
        ("created_at", s("2026-06-10T08:00:00Z")),
        ("checksum", s("abc")),
        ("aof_offset", n(0)),
        ("state", empty_state()),
    ]);
    // A checksum entry makes it an envelope, so it is never read as a bare snapshot.
    assert!(looks_like_snapshot_envelope(&malformed_envelope));
}

#[test]
fn bare_snapshots_are_not_envelopes() {
    let legacy = obj(vec![
        ("format_version", n(1)),
        ("aof_offset", n(0)),
        ("state", empty_state()),
    ]);
    assert!(!looks_like_snapshot_envelope(&legacy));
    assert!(looks_like_snapshot_envelope(&obj(vec![("snapshot", s("{}"))])));
    assert!(!looks_like_snapshot_envelope(&s("checksum")));
    assert!(!looks_like_snapshot_envelope(&JsonValue::Array(vec![s("checksum")])));
    assert!(!looks_like_snapshot_envelope(&JsonValue::Null));
}

#[test]
fn multi_items_take_three_shapes() {
    let key_only = parse_multi_item(&s("user")).unwrap();
    assert_eq!((key_only.key.as_str(), key_only.cost), ("user", 1));
    let pair = parse_multi_item(&JsonValue::Array(vec![s("org"), n(3)])).unwrap();
    assert_eq!((pair.key.as_str(), pair.cost), ("org", 3));
    let object = parse_multi_item(&obj(vec![("cost", n(7)), ("key", s("team"))])).unwrap();
    assert_eq!((object.key.as_str(), object.cost), ("team", 7));
    let defaulted = parse_multi_item(&obj(vec![("key", s("team"))])).unwrap();
    assert_eq!((defaulted.key.as_str(), defaulted.cost), ("team", 1));
}

#[test]
fn malformed_multi_items_are_refused_with_their_message() {
    let err = |v: JsonValue| parse_multi_item(&v).unwrap_err();
    assert_eq!(err(JsonValue::Array(vec![s("a")])), "tuple/list multi-limit items must be [key, cost]");
    assert_eq!(err(JsonValue::Array(vec![n(1), n(2)])), "multi-limit key must be a string");
    assert_eq!(
        err(JsonValue::Array(vec![s("a"), JsonValue::Number(JsonNumber::NegInt(-1))])),
        "multi-limit cost must be a positive int"
    );
    assert_eq!(
        err(JsonValue::Array(vec![s("a"), JsonValue::Number(JsonNumber::Float("1.5".to_string()))])),
        "multi-limit cost must be a positive int"
    );
    assert_eq!(err(obj(vec![("cost", n(2))])), "multi-limit object requires key");
    assert_eq!(err(obj(vec![("key", n(2))])), "multi-limit object requires key");
    assert_eq!(
        err(obj(vec![("key", s("a")), ("cost", s("2"))])),
        "multi-limit cost must be a positive int"
    );
    assert_eq!(err(JsonValue::Bool(true)), "multi-limit items must be strings, [key, cost], or {key, cost}");
}

#[test]
fn multi_item_lists_stop_at_the_first_refusal() {
    let items = parse_multi_items(&JsonValue::Array(vec![
        s("user"),
        JsonValue::Array(vec![s("org"), n(2)]),
    ]))
    .unwrap();
    assert_eq!(items.len(), 2);
    assert_eq!((items[1].key.as_str(), items[1].cost), ("org", 2));
    let refused = parse_multi_items(&JsonValue::Array(vec![
        s("user"),
        JsonValue::Null,
        JsonValue::Array(vec![s("a")]),
    ]))
    .unwrap_err();
    assert_eq!(refused, "multi-limit items must be strings, [key, cost], or {key, cost}");
    assert_eq!(
        parse_multi_items(&s("user")).unwrap_err(),
        "allow_all/check_all expects a list of keys or {key, cost} items"
    );
    assert!(parse_multi_items(&JsonValue::Array(vec![])).unwrap().is_empty());
}

fn keys(value: &JsonValue) -> Vec<String> {
    match value {
        JsonValue::Object(entries) => entries.iter().map(|(k, _)| k.clone()).collect(),
        _ => panic!("not an object"),
    }
}

#[test]
fn canonical_json_sorts_keys_at_every_depth() {
    let mut value = obj(vec![
        ("state", obj(vec![("metrics", n(1)), ("configs", n(2)), ("buckets", n(3))])),
        ("format_version", n(1)),
        ("aof_offset", n(0)),
        ("list", JsonValue::Array(vec![obj(vec![("b", n(1)), ("a", n(2))]), s("x")])),
    ]);
    flint_core::canonicalize_json(&mut value);
    assert_eq!(keys(&value), vec!["aof_offset", "format_version", "list", "state"]);
    match &value {
        JsonValue::Object(entries) => {
            assert_eq!(keys(&entries[3].1), vec!["buckets", "configs", "metrics"]);
            match &entries[2].1 {
                JsonValue::Array(items) => {
                    assert_eq!(items.len(), 2);
                    assert_eq!(keys(&items[0]), vec!["a", "b"]);
                    assert!(matches!(&items[1], JsonValue::String(t) if t == "x"));
                }
                _ => panic!("list lost"),
            }
            assert!(matches!(entries[0].1, JsonValue::Number(JsonNumber::PosInt(0))));
        }
        _ => panic!("not an object"),
    }
}

#[test]
fn canonical_json_orders_keys_by_code_point_and_keeps_equal_keys_in_order() {
    let value = obj(vec![
        ("é", n(1)),
        ("z", n(2)),
        ("Z", n(3)),
        ("ab", n(4)),
        ("a", n(5)),
        ("a", n(6)),
    ]);
    let canonical = flint_core::canonical_value(&value);
    assert_eq!(keys(&canonical), vec!["Z", "a", "a", "ab", "z", "é"]);
    match &canonical {
        JsonValue::Object(entries) => {
            assert!(matches!(entries[1].1, JsonValue::Number(JsonNumber::PosInt(5))));
            assert!(matches!(entries[2].1, JsonValue::Number(JsonNumber::PosInt(6))));
        }
        _ => panic!("not an object"),
    }
    let mut sorted: Vec<String> = keys(&value);
    sorted.sort();
    assert_eq!(keys(&canonical), sorted);
}

#[test]
fn canonicalizing_twice_changes_nothing() {
    let mut value = obj(vec![
        ("b", JsonValue::Array(vec![obj(vec![("y", n(1)), ("x", JsonValue::Null)])])),
        ("a", obj(vec![("d", JsonValue::Bool(true)), ("c", s("t"))])),
    ]);
    flint_core::canonicalize_json(&mut value);
    let once = format!("{value:?}");
    flint_core::canonicalize_json(&mut value);
    assert_eq!(format!("{value:?}"), once);
    assert_eq!(keys(&value), vec!["a", "b"]);
}
