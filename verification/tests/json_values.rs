use cache_tracker::encode::json_to_vec;
use cache_tracker::json::{canonicalize_json, strip_cache_control, Json};
use cache_tracker::text::{key_order, same_text, starts_with, KeyOrder};

fn text(s: &str) -> Json {
    Json::String(s.to_string())
}

fn number(n: u64) -> Json {
    Json::Number(serde_json::Number::from(n))
}

fn object(members: Vec<(&str, Json)>) -> Json {
    Json::Object(members.into_iter().map(|(key, value)| (key.to_string(), value)).collect())
}

fn written(value: &Json) -> String {
    String::from_utf8(json_to_vec(value)).unwrap()
}

#[test]
fn every_kind_of_value_is_written_as_json() {
    assert_eq!(written(&Json::Null), "null");
    assert_eq!(written(&Json::Bool(true)), "true");
    assert_eq!(written(&Json::Bool(false)), "false");
    assert_eq!(written(&number(42)), "42");
    assert_eq!(
        written(&Json::Number(serde_json::Number::from_f64(1.5).unwrap())),
        "1.5"
    );
    assert_eq!(written(&text("a\"b\\\n")), "\"a\\\"b\\\\\\n\"");
    assert_eq!(written(&Json::Array(vec![number(1), text("x"), Json::Null])), "[1,\"x\",null]");
    assert_eq!(written(&object(vec![("k", Json::Array(vec![]))])), "{\"k\":[]}");
}

#[test]
fn the_order_of_keys_does_not_change_the_text() {
    let a = object(vec![("b", number(1)), ("a", object(vec![("z", Json::Null), ("y", number(2))]))]);
    let b = object(vec![("a", object(vec![("y", number(2)), ("z", Json::Null)])), ("b", number(1))]);
    assert_eq!(written(&a), written(&b));
    assert_eq!(written(&a), "{\"a\":{\"y\":2,\"z\":null},\"b\":1}");
}

#[test]
fn the_later_of_two_members_with_one_key_counts() {
    let value = object(vec![("k", number(1)), ("other", Json::Null), ("k", number(2))]);
    assert_eq!(written(&value), "{\"k\":2,\"other\":null}");
    match value.get("k") {
        Some(Json::Number(n)) => assert_eq!(n.as_u64(), Some(2)),
        other => panic!("{other:?}"),
    }
}

#[test]
fn get_finds_members_of_objects_only() {
    let value = object(vec![("k", text("v"))]);
    assert!(matches!(value.get("k"), Some(Json::String(s)) if s == "v"));
    assert!(value.get("missing").is_none());
    assert!(Json::Array(vec![text("k")]).get("k").is_none());
    assert!(text("k").get("k").is_none());
    assert!(Json::Null.get("k").is_none());
}

#[test]
fn canonical_objects_have_their_keys_in_byte_order() {
    let value = Json::Array(vec![object(vec![
        ("b", object(vec![("d", Json::Null), ("c", Json::Null)])),
        ("a", number(1)),
        ("", number(0)),
        ("b", object(vec![("f", Json::Null), ("e", Json::Null)])),
        ("A", number(3)),
        ("\u{10000}", number(4)),
        ("\u{e000}", number(5)),
        ("aa", number(6)),
    ])]);
    let before = written(&value);
    let canonical = canonicalize_json(value);
    assert_eq!(written(&canonical), before);
    let Json::Array(items) = &canonical else { panic!() };
    let Json::Object(members) = &items[0] else { panic!() };
    let keys: Vec<&str> = members.iter().map(|(key, _)| key.as_str()).collect();
    assert_eq!(keys, ["", "A", "a", "aa", "b", "\u{e000}", "\u{10000}"]);
    let Json::Object(inner) = &members[4].1 else { panic!() };
    let inner_keys: Vec<&str> = inner.iter().map(|(key, _)| key.as_str()).collect();
    assert_eq!(inner_keys, ["e", "f"]);
}

#[test]
fn canonical_forms_of_equal_values_are_written_alike() {
    let a = canonicalize_json(object(vec![("x", number(1)), ("y", number(2)), ("x", number(3))]));
    let b = canonicalize_json(object(vec![("y", number(2)), ("x", number(3))]));
    assert_eq!(format!("{a:?}"), format!("{b:?}"));
}

#[test]
fn cache_markers_are_removed_at_every_depth() {
    let mut value = object(vec![
        ("cache_control", object(vec![("type", text("ephemeral"))])),
        ("keep", Json::Array(vec![
            object(vec![("cache_control", Json::Null), ("n", number(1)), ("cache_control", Json::Null)]),
            text("cache_control"),
        ])),
        ("deep", object(vec![("deeper", object(vec![("cache_control", Json::Bool(true))]))])),
    ]);
    strip_cache_control(&mut value);
    let once = written(&value);
    assert_eq!(once, "{\"deep\":{\"deeper\":{}},\"keep\":[{\"n\":1},\"cache_control\"]}");
    strip_cache_control(&mut value);
    assert_eq!(written(&value), once);
}

#[test]
fn values_without_members_have_no_markers_to_remove() {
    let mut value = text("cache_control");
    strip_cache_control(&mut value);
    assert_eq!(written(&value), "\"cache_control\"");
}

#[test]
fn a_clone_is_written_like_its_source() {
    let value = object(vec![("k", Json::Array(vec![number(7), Json::Bool(false), text("s"), Json::Null]))]);
    assert_eq!(written(&value.clone()), written(&value));
}

#[test]
fn keys_are_ordered_by_their_bytes() {
    assert!(matches!(key_order("a", "b"), KeyOrder::Before));
    assert!(matches!(key_order("b", "a"), KeyOrder::After));
    assert!(matches!(key_order("a", "a"), KeyOrder::Same));
    assert!(matches!(key_order("", "a"), KeyOrder::Before));
    assert!(matches!(key_order("ab", "a"), KeyOrder::After));
    assert!(matches!(key_order("z", "\u{e9}"), KeyOrder::Before));
    assert!(matches!(key_order("\u{e000}", "\u{10000}"), KeyOrder::Before));
}

#[test]
fn texts_are_compared_as_a_whole_and_by_their_beginning() {
    assert!(same_text("caf\u{e9}", "caf\u{e9}"));
    assert!(!same_text("cafe", "caf\u{e9}"));
    assert!(!same_text("a", "ab"));
    assert!(starts_with("header: x", "header:"));
    assert!(starts_with("header:", "header:"));
    assert!(starts_with("anything", ""));
    assert!(!starts_with("head", "header:"));
    assert!(!starts_with("Header:", "header:"));
}

#[test]
fn different_values_have_different_texts() {
    let float = |f: f64| Json::Number(serde_json::Number::from_f64(f).unwrap());
    let values = [
        Json::Null,
        text("null"),
        text(""),
        Json::Array(vec![]),
        object(vec![]),
        number(1),
        float(1.0),
        text("1"),
        float(0.0),
        float(-0.0),
        number(0),
        float(0.1),
        float(0.1 + f64::EPSILON / 8.0),
        number(10_000_000_000_000_000),
        float(1e16),
        Json::Number(serde_json::Number::from(-1i64)),
        text("\n"),
        text("\\n"),
        object(vec![("a", text("b\",\"c\":\"d"))]),
        object(vec![("a", text("b")), ("c", text("d"))]),
    ];
    let texts: std::collections::BTreeSet<String> = values.iter().map(written).collect();
    assert_eq!(texts.len(), values.len());
}
