use i18n_key_translator::config::{default_path_templates, load_config, Config};
use i18n_key_translator::json::JsonValue;

fn s(x: &str) -> JsonValue {
    JsonValue::String(x.to_string())
}

fn obj(members: Vec<(&str, JsonValue)>) -> JsonValue {
    JsonValue::Object(members.into_iter().map(|(k, v)| (k.to_string(), v)).collect())
}

#[test]
fn default_config_values() {
    let c = Config::default();
    assert_eq!(c.default_lang, "en");
    assert_eq!(c.cache_dir, ".i18n-cache");
    assert_eq!(c.key_prefix, "");
    assert_eq!(c.local_paths, default_path_templates());
    assert_eq!(c.local_paths.len(), 19);
    assert_eq!(c.local_paths[0], "locales/{lang}.json");
    assert_eq!(c.local_paths[18], "lib/l10n/app_{lang}.arb");
}

#[test]
fn absent_or_malformed_config_gives_defaults() {
    let c = load_config(None);
    let d = Config::default();
    assert_eq!(c.default_lang, d.default_lang);
    assert_eq!(c.cache_dir, d.cache_dir);
    assert_eq!(c.local_paths, d.local_paths);
    assert_eq!(c.key_prefix, d.key_prefix);
    let not_object = load_config(Some(&JsonValue::Array(vec![s("x")])));
    assert_eq!(not_object.local_paths, d.local_paths);
    assert_eq!(not_object.default_lang, "en");
}

#[test]
fn config_settings_are_read() {
    let doc = obj(vec![
        ("defaultLang", s("zh")),
        ("cacheDir", s(".cache/i18n")),
        ("localPaths", JsonValue::Array(vec![s("res/{lang}.json"), JsonValue::Null, s("x/{lang}.json")])),
        ("keyPrefix", s("app.")),
    ]);
    let c = load_config(Some(&doc));
    assert_eq!(c.default_lang, "zh");
    assert_eq!(c.cache_dir, ".cache/i18n");
    assert_eq!(c.local_paths, vec!["res/{lang}.json", "x/{lang}.json"]);
    assert_eq!(c.key_prefix, "app.");
}

#[test]
fn legacy_paths_are_accepted() {
    let doc = obj(vec![("paths", JsonValue::Array(vec![s("resources/lang/{lang}.json")]))]);
    assert_eq!(load_config(Some(&doc)).local_paths, vec!["resources/lang/{lang}.json"]);
}

#[test]
fn unusable_path_lists_fall_back_to_defaults() {
    let empty = obj(vec![("localPaths", JsonValue::Array(vec![JsonValue::Bool(true)]))]);
    assert_eq!(load_config(Some(&empty)).local_paths, default_path_templates());
    // a `localPaths` that is not an array hides the legacy `paths`
    let wrong = obj(vec![("localPaths", s("a")), ("paths", JsonValue::Array(vec![s("b")]))]);
    assert_eq!(load_config(Some(&wrong)).local_paths, default_path_templates());
}

#[test]
fn non_string_settings_take_defaults() {
    let doc = obj(vec![("defaultLang", JsonValue::Number("1".to_string())), ("keyPrefix", JsonValue::Null)]);
    let c = load_config(Some(&doc));
    assert_eq!(c.default_lang, "en");
    assert_eq!(c.key_prefix, "");
}
