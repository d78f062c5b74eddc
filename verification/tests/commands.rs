use std::collections::HashMap;

use i18n_key_translator::commands::i18n::run_i18n;
use i18n_key_translator::commands::i18n_keys::run_i18n_keys;
use i18n_key_translator::commands::i18n_sync::{remote_sources, run_i18n_sync, SyncTrigger};
use i18n_key_translator::json::JsonValue;
use i18n_key_translator::output::CommandOutput;
use zed_extension_api::serde_json;

fn s(x: &str) -> JsonValue {
    JsonValue::String(x.to_string())
}

fn obj(members: Vec<(&str, JsonValue)>) -> JsonValue {
    JsonValue::Object(members.into_iter().map(|(k, v)| (k.to_string(), v)).collect())
}

const EN: &str = r#"{"common": {"button": {"cancel": "Cancel", "save": "Save"}}}"#;
const ZH: &str = r#"{"common": {"button": {"save": "保存", "cancel": "取消"}}}"#;
const PREFIXED: &str = r#"{"app": {"title": "Hello"}}"#;
const CFG_ZH: &str = r#"{"defaultLang": "zh"}"#;
const CFG_PREFIX: &str = r#"{"keyPrefix": "app."}"#;
const CFG_REMOTE: &str = r#"{
    "defaultLang": "en",
    "languages": ["fr", "en", "de"],
    "remoteSources": {"zh": "https://cdn/zh.json", "en": "https://cdn/en.json"}
}"#;

fn parser_error(text: &str) -> String {
    serde_json::from_str::<serde_json::Value>(text).unwrap_err().to_string()
}

fn reader(files: Vec<(&'static str, &'static str)>) -> impl Fn(&String) -> Option<String> {
    let map: HashMap<&str, &str> = files.into_iter().collect();
    move |p: &String| map.get(p.as_str()).map(|t| t.to_string())
}

fn args(items: &[&str]) -> Vec<String> {
    items.iter().map(|a| a.to_string()).collect()
}

fn check_section(out: &CommandOutput, label: &str) {
    assert_eq!(out.sections.len(), 1);
    assert_eq!(out.sections[0].start, 0);
    assert_eq!(out.sections[0].end, out.text.len());
    assert_eq!(out.sections[0].label, label);
}

#[test]
fn i18n_without_key_shows_usage() {
    let read = reader(vec![]);
    let err = run_i18n(args(&[]), Some(&read)).err().unwrap();
    assert!(err.starts_with("Usage: /i18n <key> [lang]\n\nExamples:\n"));
    assert!(err.ends_with("The default language is 'en' (override with .i18n-viewer.json)."));
}

#[test]
fn i18n_needs_a_workspace() {
    let none: Option<&fn(&String) -> Option<String>> = None;
    assert_eq!(
        run_i18n(args(&["a"]), none).err().unwrap(),
        "No open workspace. Please open a project folder first."
    );
}

#[test]
fn i18n_shows_a_string() {
    let read = reader(vec![("locales/en.json", EN)]);
    let out = run_i18n(args(&["common.button.save"]), Some(&read)).ok().unwrap();
    let header = "i18n: common.button.save [en]";
    let rule = "─".repeat(header.len());
    assert_eq!(out.text, format!("{header}\n{rule}\nSave\n\n(from locales/en.json)"));
    check_section(&out, "i18n: common.button.save [en]");
}

#[test]
fn i18n_shows_a_namespace() {
    let read = reader(vec![(".i18n-cache/zh.json", ZH)]);
    let out = run_i18n(args(&["common.button", "zh"]), Some(&read)).ok().unwrap();
    let header = "i18n: common.button [zh] (namespace — showing all leaf keys)";
    let rule = "─".repeat(header.len().min(72));
    assert_eq!(rule.chars().count(), 62);
    assert_eq!(out.text, format!("{header}\n{rule}\ncancel: 取消\nsave: 保存\n\n(from .i18n-cache/zh.json)"));
    check_section(&out, "i18n: common.button [zh]");
}

#[test]
fn i18n_uses_configured_language_and_prefix() {
    let read = reader(vec![(".i18n-viewer.json", CFG_ZH), ("locales/zh.json", ZH)]);
    let out = run_i18n(args(&["common.button.cancel"]), Some(&read)).ok().unwrap();
    assert!(out.text.starts_with("i18n: common.button.cancel [zh]\n"));
    let read = reader(vec![(".i18n-viewer.json", CFG_PREFIX), ("locales/en.json", PREFIXED)]);
    let out = run_i18n(args(&["title"]), Some(&read)).ok().unwrap();
    assert!(out.text.starts_with("i18n: app.title [en]\n"));
    assert!(out.text.contains("\nHello\n"));
}

#[test]
fn i18n_reports_a_missing_key() {
    let read = reader(vec![("locales/en.json", EN)]);
    assert_eq!(
        run_i18n(args(&["common.nope"]), Some(&read)).err().unwrap(),
        "Key 'common.nope' not found in 'locales/en.json'"
    );
}

#[test]
fn i18n_reports_invalid_json() {
    let read = reader(vec![("locales/en.json", "{ broken")]);
    assert_eq!(
        run_i18n(args(&["x"]), Some(&read)).err().unwrap(),
        format!("Failed to parse 'locales/en.json': {}", parser_error("{ broken"))
    );
}

#[test]
fn i18n_missing_file_gives_tip() {
    let read = reader(vec![]);
    let err = run_i18n(args(&["k", "it"]), Some(&read)).err().unwrap();
    assert!(err.starts_with("No translation file found for language 'it'.\n\nSearched:\n  • .i18n-cache/it.json\n"));
    assert!(err.ends_with(
        "\n\nTip: add the language file path or a remote source in .i18n-viewer.json:\n{\n  \"defaultLang\": \"it\",\n  \"localPaths\": [\"locales/{lang}.json\"],\n  \"remoteSources\": { \"it\": \"https://example.com/it.json\" }\n}"
    ));
}

#[test]
fn i18n_missing_cached_remote_gives_hint() {
    let read = reader(vec![(".i18n-viewer.json", CFG_REMOTE)]);
    let err = run_i18n(args(&["k", "zh"]), Some(&read)).err().unwrap();
    assert!(err.ends_with(
        "\n\nHint: remoteSources[\"zh\"] is configured (https://cdn/zh.json)\nbut the local cache is empty.\n→ Run /i18n-sync to download and cache it, then retry."
    ));
}

#[test]
fn keys_are_listed_sorted() {
    let read = reader(vec![("locales/zh.json", ZH)]);
    let out = run_i18n_keys(args(&["zh"]), Some(&read)).ok().unwrap();
    let header = "i18n keys [zh] — locales/zh.json";
    let rule = "─".repeat(header.len());
    assert_eq!(
        out.text,
        format!("{header}\n{rule}\ncommon.button.cancel\ncommon.button.save\n\n(2 keys total)")
    );
    check_section(&out, "i18n keys [zh] (2 keys)");
}

#[test]
fn keys_errors() {
    let none: Option<&fn(&String) -> Option<String>> = None;
    assert_eq!(
        run_i18n_keys(args(&[]), none).err().unwrap(),
        "No open workspace. Please open a project folder first."
    );
    let read = reader(vec![]);
    let err = run_i18n_keys(args(&["xx"]), Some(&read)).err().unwrap();
    assert!(err.starts_with("No translation file found for language 'xx'."));
    assert!(!err.contains("Tip:"));
}

#[test]
fn sync_without_remote_sources() {
    let read = reader(vec![("locales/en.json", EN)]);
    let plan = run_i18n_sync(args(&[]), Some(&read)).ok().unwrap();
    assert!(plan.request.is_none());
    let out = plan.report(None);
    let expected = [
        "i18n Sync Status",
        &"─".repeat(48),
        "",
        "Remote sources: none configured",
        "  Tip: add \"remoteSources\" to .i18n-viewer.json to enable remote fetching.",
        "",
        "Cache status  (.i18n-cache/:)",
        &"─".repeat(32),
        "  [en]  ✓  local file found  (no remote source)",
        "",
        "Nothing to sync — no remote sources are configured in .i18n-viewer.json.",
    ]
    .join("\n");
    assert_eq!(out.text, expected);
    check_section(&out, "i18n sync status");
}

#[test]
fn sync_with_remote_sources() {
    let read = reader(vec![(".i18n-viewer.json", CFG_REMOTE), (".i18n-cache/en.json", EN)]);
    let plan = run_i18n_sync(args(&[]), Some(&read)).ok().unwrap();
    assert_eq!(plan.request, Some(vec!["en".to_string(), "zh".to_string()]));
    let out = plan.report(Some(SyncTrigger::Written));
    let expected = [
        "i18n Sync Status",
        &"─".repeat(48),
        "",
        "Remote sources (2 configured):",
        "  [en]  https://cdn/en.json",
        "  [zh]  https://cdn/zh.json",
        "",
        "Cache status  (.i18n-cache/:)",
        &"─".repeat(32),
        "  [en]  ✓  .i18n-cache/en.json  (2 keys)",
        "  [fr]  ✗  no cache and no local file found",
        "  [de]  ✗  no cache and no local file found",
        "  [zh]  ✗  not cached  →  will fetch from remote on next hover",
        "",
        "⟳  Sync triggered for: en, zh",
        "   The LSP server will download and cache the packs within a second.",
    ]
    .join("\n");
    assert_eq!(out.text, expected);
}

#[test]
fn sync_one_language_without_server() {
    let read = reader(vec![(".i18n-viewer.json", CFG_REMOTE), (".i18n-cache/fr.json", "not json")]);
    let plan = run_i18n_sync(args(&["fr"]), Some(&read)).ok().unwrap();
    assert_eq!(plan.request, Some(vec!["fr".to_string()]));
    let out = plan.report(Some(SyncTrigger::NoServer));
    assert!(out.text.starts_with("i18n Sync Status — [fr]\n"));
    assert!(out.text.contains("\n  [fr]  ✓  .i18n-cache/fr.json  (0 keys)  (local only)\n"));
    assert!(out.text.ends_with(
        "\n\n\n⚠  The i18n LSP server has not started yet (open a supported source file first).\n   Once the server is running, re-run /i18n-sync to trigger a download."
    ));
    check_section(&out, "i18n sync [fr]");
}

#[test]
fn sync_write_failure() {
    let read = reader(vec![(".i18n-viewer.json", CFG_REMOTE)]);
    let plan = run_i18n_sync(args(&["zh"]), Some(&read)).ok().unwrap();
    let out = plan.report(Some(SyncTrigger::Failed("permission denied".to_string())));
    assert!(out.text.ends_with(
        "✗  Could not write sync request: permission denied\n   Try hovering over any i18n key to trigger a lazy re-fetch."
    ));
    let none: Option<&fn(&String) -> Option<String>> = None;
    assert_eq!(
        run_i18n_sync(args(&[]), none).err().unwrap(),
        "No open workspace. Please open a project folder first."
    );
}

#[test]
fn readme_namespace_example() {
    let read = reader(vec![(
        "locales/zh.json",
        r#"{"common": {"button": {"save": "保存", "cancel": "取消", "confirm": "确认"}}}"#,
    )]);
    let out = run_i18n(args(&["common.button", "zh"]), Some(&read)).ok().unwrap();
    // The parser keeps object members sorted by name.
    assert!(out.text.contains("\ncancel: 取消\nconfirm: 确认\nsave: 保存\n"));
}

#[test]
fn remote_sources_sorted_stably() {
    let cfg = obj(vec![(
        "remoteSources",
        obj(vec![
            ("zh", s("https://z1")),
            ("en", s("https://e1")),
            ("bad", JsonValue::Bool(true)),
            ("zh", s("https://z2")),
            ("en", s("https://e2")),
        ]),
    )]);
    let sorted = remote_sources(&cfg);
    let got: Vec<(&str, &str)> = sorted.iter().map(|p| (p.0.as_str(), p.1.as_str())).collect();
    assert_eq!(got, vec![("en", "https://e1"), ("en", "https://e2"), ("zh", "https://z1"), ("zh", "https://z2")]);
    assert!(remote_sources(&JsonValue::Null).is_empty());
    assert!(remote_sources(&obj(vec![("remoteSources", s("x"))])).is_empty());
}

#[test]
fn sync_asks_nothing_without_a_workspace_or_remote_source() {
    let none: Option<&fn(&String) -> Option<String>> = None;
    assert!(run_i18n_sync(args(&["zh"]), none).is_err());
    let read = reader(vec![(".i18n-viewer.json", CFG_ZH)]);
    assert!(run_i18n_sync(args(&["zh"]), Some(&read)).ok().unwrap().request.is_none());
    let read = reader(vec![(".i18n-viewer.json", "{ not json")]);
    assert!(run_i18n_sync(args(&[]), Some(&read)).ok().unwrap().request.is_none());
}
