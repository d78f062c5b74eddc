use i18n_key_translator::json::{parse_json, JsonValue};
use i18n_key_translator::translation::{collect_keys, format_value, lookup_key, resolve_translation};
use zed_extension_api::serde_json;

fn names(v: &JsonValue) -> Vec<String> {
    match v {
        JsonValue::Object(entries) => entries.iter().map(|e| e.0.clone()).collect(),
        _ => Vec::new(),
    }
}

#[test]
fn parses_every_kind_of_value() {
    let v = parse_json(r#"{"s": "x", "n": 1.5, "b": true, "z": null, "a": [1, "y"], "o": {"k": "v"}}"#).ok().unwrap();
    assert_eq!(names(&v), vec!["a", "b", "n", "o", "s", "z"]);
    assert_eq!(format_value(&v), "a[0]: 1\na[1]: y\nb: true\nn: 1.5\no.k: v\ns: x\nz: (null)");
}

#[test]
fn parses_a_scalar_document() {
    assert!(matches!(parse_json("42"), Ok(JsonValue::Number(n)) if n == "42"));
    assert!(matches!(parse_json("\"hi\""), Ok(JsonValue::String(t)) if t == "hi"));
    assert!(matches!(parse_json("null"), Ok(JsonValue::Null)));
}

#[test]
fn a_repeated_member_name_is_kept_once() {
    let v = parse_json(r#"{"a": 1, "a": 2}"#).ok().unwrap();
    assert_eq!(names(&v), vec!["a"]);
    assert_eq!(format_value(&v), "a: 2");
}

#[test]
fn invalid_text_gives_the_parser_message() {
    for text in ["{ broken", "", "[1,", "{\"a\": }"] {
        let expected = serde_json::from_str::<serde_json::Value>(text).unwrap_err().to_string();
        assert_eq!(parse_json(text).err().unwrap(), expected);
    }
}

#[test]
fn listed_keys_are_distinct_and_one_per_leaf() {
    let v = parse_json(r#"{"b": {"x": 1, "y": {"z": "deep"}}, "a": "top", "c": {"x": null}}"#).ok().unwrap();
    let mut keys = Vec::new();
    collect_keys(&v, "", &mut keys);
    assert_eq!(keys, vec!["a", "b.x", "b.y.z", "c.x"]);
    let mut sorted = keys.clone();
    sorted.dedup();
    assert_eq!(sorted.len(), keys.len());
}

#[test]
fn every_listed_key_looks_up_a_leaf() {
    let v = parse_json(r#"{"b": {"x": 1, "y": {"z": "deep"}}, "a": "top", "c": {"x": null, "w": false}}"#).ok().unwrap();
    let mut keys = Vec::new();
    collect_keys(&v, "", &mut keys);
    assert_eq!(keys.len(), 5);
    for k in &keys {
        let leaf = lookup_key(&v, k).unwrap();
        assert!(!matches!(leaf, JsonValue::Object(_) | JsonValue::Array(_)));
        let resolved = resolve_translation(&v, k, "").unwrap();
        assert!(!matches!(resolved, JsonValue::Object(_) | JsonValue::Array(_)));
    }
}
