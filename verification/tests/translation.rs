use std::collections::HashMap;

use i18n_key_translator::config::{default_path_templates, Config};
use i18n_key_translator::json::JsonValue;
use i18n_key_translator::translation::{
    collect_keys, collect_lines, find_translation, find_translation_file, format_value, lookup_key,
    resolve_paths, resolve_translation,
};

fn s(x: &str) -> JsonValue {
    JsonValue::String(x.to_string())
}

fn num(x: &str) -> JsonValue {
    JsonValue::Number(x.to_string())
}

fn obj(members: Vec<(&str, JsonValue)>) -> JsonValue {
    JsonValue::Object(members.into_iter().map(|(k, v)| (k.to_string(), v)).collect())
}

fn sample() -> JsonValue {
    obj(vec![
        ("common", obj(vec![("button", obj(vec![("cancel", s("Cancel")), ("save", s("Save"))]))])),
        ("count", num("3")),
        ("list", JsonValue::Array(vec![s("x"), JsonValue::Null, JsonValue::Bool(true)])),
    ])
}

fn text_of(v: Option<&JsonValue>) -> Option<String> {
    match v {
        Some(JsonValue::String(t)) => Some(t.clone()),
        _ => None,
    }
}

fn config_with(cache_dir: &str, templates: &[&str]) -> Config {
    Config {
        default_lang: "en".to_string(),
        cache_dir: cache_dir.to_string(),
        local_paths: templates.iter().map(|t| t.to_string()).collect(),
        key_prefix: String::new(),
    }
}

#[test]
fn lines_are_flat_key_value_pairs() {
    let mut lines = vec!["before".to_string()];
    collect_lines(&sample(), "", &mut lines);
    assert_eq!(
        lines,
        vec![
            "before",
            "common.button.cancel: Cancel",
            "common.button.save: Save",
            "count: 3",
            "list[0]: x",
            "list[1]: (null)",
            "list[2]: true",
        ]
    );
}

#[test]
fn lines_below_a_prefix_and_of_a_top_level_array() {
    let mut lines = Vec::new();
    collect_lines(&obj(vec![("a", s("1"))]), "ns", &mut lines);
    assert_eq!(lines, vec!["ns.a: 1"]);
    let mut lines = Vec::new();
    collect_lines(&JsonValue::Array(vec![s("x"), JsonValue::Bool(false)]), "", &mut lines);
    assert_eq!(lines, vec!["[0]: x", "[1]: false"]);
}

#[test]
fn scalars_are_rendered_as_is() {
    assert_eq!(format_value(&s("保存")), "保存");
    assert_eq!(format_value(&num("1.5")), "1.5");
    assert_eq!(format_value(&JsonValue::Bool(true)), "true");
    assert_eq!(format_value(&JsonValue::Null), "(null)");
}

#[test]
fn namespaces_are_rendered_as_lines() {
    let v = obj(vec![("save", s("保存")), ("cancel", s("取消"))]);
    assert_eq!(format_value(&v), "save: 保存\ncancel: 取消");
    assert_eq!(format_value(&obj(vec![])), "");
}

#[test]
fn keys_are_leaf_paths() {
    let mut keys = Vec::new();
    collect_keys(&sample(), "", &mut keys);
    assert_eq!(keys, vec!["common.button.cancel", "common.button.save", "count", "list[0]", "list[1]", "list[2]"]);
    let mut keys = Vec::new();
    collect_keys(&s("alone"), "", &mut keys);
    assert!(keys.is_empty());
}

#[test]
fn lookup_follows_dot_paths() {
    let v = sample();
    assert_eq!(text_of(lookup_key(&v, "common.button.save")), Some("Save".to_string()));
    assert!(matches!(lookup_key(&v, "common.button"), Some(JsonValue::Object(_))));
    assert!(lookup_key(&v, "common.missing").is_none());
    assert!(lookup_key(&v, "count.deeper").is_none());
    assert!(lookup_key(&v, "list.0").is_none());
    assert!(lookup_key(&v, "").is_none());
}

#[test]
fn resolve_tries_flat_then_nested_with_and_without_prefix() {
    let v = obj(vec![
        ("app.title", s("flat prefixed")),
        ("app", obj(vec![("name", s("nested prefixed")), ("title", s("shadowed"))])),
        ("plain.key", s("flat")),
        ("plain", obj(vec![("key", s("shadowed too")), ("other", s("nested"))])),
    ]);
    assert_eq!(text_of(resolve_translation(&v, "title", "app.")), Some("flat prefixed".to_string()));
    assert_eq!(text_of(resolve_translation(&v, "name", "app.")), Some("nested prefixed".to_string()));
    assert_eq!(text_of(resolve_translation(&v, "plain.key", "app.")), Some("flat".to_string()));
    assert_eq!(text_of(resolve_translation(&v, "plain.other", "")), Some("nested".to_string()));
    assert!(resolve_translation(&v, "nothing", "app.").is_none());
}

#[test]
fn listed_keys_resolve() {
    let v = obj(vec![
        ("common", obj(vec![("button", obj(vec![("save", s("Save")), ("n", num("2"))]))])),
        ("title", s("Title")),
    ]);
    let mut keys = Vec::new();
    collect_keys(&v, "", &mut keys);
    assert_eq!(keys.len(), 3);
    for k in &keys {
        let found = resolve_translation(&v, k, "").expect("listed key resolves");
        assert!(!matches!(found, JsonValue::Object(_) | JsonValue::Array(_)));
    }
}

#[test]
fn paths_resolve_per_language() {
    let templates = default_path_templates();
    let paths = resolve_paths("zh", &templates);
    assert_eq!(paths.len(), 19);
    assert_eq!(paths[0], "locales/zh.json");
    assert_eq!(paths[5], "public/locales/zh/translation.json");
    assert_eq!(paths[18], "lib/l10n/app_zh.arb");
    let custom = vec!["fixed.json".to_string()];
    assert_eq!(resolve_paths("fr", &custom), vec!["fixed.json"]);
}

#[test]
fn first_readable_candidate_wins() {
    let files: HashMap<&str, &str> = [("b.json", "B"), ("c.json", "C")].into_iter().collect();
    let read = |p: &String| files.get(p.as_str()).map(|t| t.to_string());
    let candidates: Vec<String> = vec!["a.json".into(), "b.json".into(), "c.json".into()];
    assert_eq!(find_translation_file(&read, &candidates), Ok(("B".to_string(), "b.json".to_string())));
    let none: Vec<String> = vec!["x".into(), "y".into()];
    assert_eq!(find_translation_file(&read, &none), Err(vec!["x".to_string(), "y".to_string()]));
}

#[test]
fn cache_is_searched_first() {
    let files: HashMap<&str, &str> =
        [(".i18n-cache/zh.json", "CACHED"), ("locales/zh.json", "LOCAL")].into_iter().collect();
    let read = |p: &String| files.get(p.as_str()).map(|t| t.to_string());
    let config = config_with(".i18n-cache", &["locales/{lang}.json"]);
    assert_eq!(
        find_translation(&read, "zh", &config),
        Ok(("CACHED".to_string(), ".i18n-cache/zh.json".to_string()))
    );
}

#[test]
fn local_templates_follow_the_cache() {
    let files: HashMap<&str, &str> = [("i18n/fr.json", "FR")].into_iter().collect();
    let read = |p: &String| files.get(p.as_str()).map(|t| t.to_string());
    let config = config_with("cache", &["locales/{lang}.json", "i18n/{lang}.json"]);
    assert_eq!(find_translation(&read, "fr", &config), Ok(("FR".to_string(), "i18n/fr.json".to_string())));
}

#[test]
fn missing_translation_lists_every_path_tried() {
    let read = |_p: &String| -> Option<String> { None };
    let config = config_with(".i18n-cache", &["locales/{lang}.json", "lang/{lang}.json"]);
    assert_eq!(
        find_translation(&read, "de", &config),
        Err("No translation file found for language 'de'.\n\nSearched:\n  • .i18n-cache/de.json\n  • locales/de.json\n  • lang/de.json"
            .to_string())
    );
    let default = Config::default();
    let err = find_translation(&read, "en", &default).unwrap_err();
    assert_eq!(err.lines().filter(|l| l.starts_with("  • ")).count(), 20);
}

#[test]
fn namespace_lines_begin_with_their_keys() {
    let v = sample();
    let mut lines = Vec::new();
    collect_lines(&v, "", &mut lines);
    let mut keys = Vec::new();
    collect_keys(&v, "", &mut keys);
    assert_eq!(lines.len(), keys.len());
    for (line, key) in lines.iter().zip(keys.iter()) {
        assert!(line.starts_with(&format!("{}: ", key)));
    }
    let rendered = format_value(&v);
    assert_eq!(rendered.lines().count(), keys.len());
}
