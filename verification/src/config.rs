//! The extension's configuration, read from an optional `.i18n-viewer.json`
//! at the root of the project.

use vstd::prelude::*;

use crate::json::{member, string_of, JsonValue};
use crate::text::views;

verus! {

/// The path templates searched when the configuration names none, in order;
/// `{lang}` stands for the language code.
pub open spec fn default_templates() -> Seq<Seq<char>> {
    seq![
        "locales/{lang}.json"@,
        "locale/{lang}.json"@,
        "i18n/{lang}.json"@,
        "translations/{lang}.json"@,
        "lang/{lang}.json"@,
        "public/locales/{lang}/translation.json"@,
        "public/locales/{lang}/common.json"@,
        "public/locales/{lang}/index.json"@,
        "locales/{lang}/translation.json"@,
        "locales/{lang}/index.json"@,
        "locales/{lang}/common.json"@,
        "locale/{lang}/translation.json"@,
        "src/locales/{lang}.json"@,
        "src/i18n/{lang}.json"@,
        "src/i18n/locales/{lang}.json"@,
        "src/assets/locales/{lang}.json"@,
        "assets/locales/{lang}.json"@,
        "assets/i18n/{lang}.json"@,
        "lib/l10n/app_{lang}.arb"@,
    ]
}

/// The built-in path templates: generic flat layouts, i18next layouts,
/// nested locale directories, source-tree locations and Flutter ARB files.
pub fn default_path_templates() -> (r: Vec<String>)
    ensures
        views(r@) == default_templates(),
{
    let mut r: Vec<String> = Vec::new();
    r.push(String::from_str("locales/{lang}.json"));
    r.push(String::from_str("locale/{lang}.json"));
    r.push(String::from_str("i18n/{lang}.json"));
    r.push(String::from_str("translations/{lang}.json"));
    r.push(String::from_str("lang/{lang}.json"));
    r.push(String::from_str("public/locales/{lang}/translation.json"));
    r.push(String::from_str("public/locales/{lang}/common.json"));
    r.push(String::from_str("public/locales/{lang}/index.json"));
    r.push(String::from_str("locales/{lang}/translation.json"));
    r.push(String::from_str("locales/{lang}/index.json"));
    r.push(String::from_str("locales/{lang}/common.json"));
    r.push(String::from_str("locale/{lang}/translation.json"));
    r.push(String::from_str("src/locales/{lang}.json"));
    r.push(String::from_str("src/i18n/{lang}.json"));
    r.push(String::from_str("src/i18n/locales/{lang}.json"));
    r.push(String::from_str("src/assets/locales/{lang}.json"));
    r.push(String::from_str("assets/locales/{lang}.json"));
    r.push(String::from_str("assets/i18n/{lang}.json"));
    r.push(String::from_str("lib/l10n/app_{lang}.arb"));
    assert(views(r@) =~= default_templates());
    r
}

/// The extension's settings.
pub struct Config {
    /// Language used when a command names none.
    pub default_lang: String,
    /// Directory, relative to the project root, of the downloaded translations.
    pub cache_dir: String,
    /// Path templates of the project's own translation files, in search order.
    pub local_paths: Vec<String>,
    /// Prefix tried in front of every looked-up key.
    pub key_prefix: String,
}

/// The language used when neither the command nor the configuration names one.
pub open spec fn default_lang_spec() -> Seq<char> {
    "en"@
}

/// The cache directory used when the configuration names none.
pub open spec fn default_cache_dir() -> Seq<char> {
    ".i18n-cache"@
}

impl Default for Config {
    fn default() -> (r: Self)
        ensures
            r.default_lang@ == default_lang_spec(),
            r.cache_dir@ == default_cache_dir(),
            views(r.local_paths@) == default_templates(),
            r.key_prefix@ == Seq::<char>::empty(),
    {
        Config {
            default_lang: String::from_str("en"),
            cache_dir: String::from_str(".i18n-cache"),
            local_paths: default_path_templates(),
            key_prefix: String::new(),
        }
    }
}

/// The string member `name` of the configuration document, or `fallback`
/// when there is no document, it has no such member or the member is not a
/// string.
pub open spec fn setting(doc: Option<JsonValue>, name: Seq<char>, fallback: Seq<char>) -> Seq<char> {
    match doc {
        Some(d) => match string_of(member(d, name)) {
            Some(s) => s,
            None => fallback,
        },
        None => fallback,
    }
}

/// The strings among `items`, in order; other items are skipped.
pub open spec fn string_items(items: Seq<JsonValue>) -> Seq<Seq<char>>
    decreases items.len(),
{
    if items.len() == 0 {
        Seq::empty()
    } else {
        let rest = string_items(items.subrange(1, items.len() as int));
        match items[0] {
            JsonValue::String(s) => seq![s@] + rest,
            _ => rest,
        }
    }
}

/// The path templates of the configuration: the strings of the array
/// `localPaths` (or, when that member is absent, of the legacy `paths`),
/// or the built-in templates when there is no such array or it holds no
/// string.
pub open spec fn configured_templates(doc: Option<JsonValue>) -> Seq<Seq<char>> {
    match doc {
        Some(d) => {
            let source = if member(d, "localPaths"@) is Some {
                member(d, "localPaths"@)
            } else {
                member(d, "paths"@)
            };
            match source {
                Some(JsonValue::Array(items)) => if string_items(items@).len() > 0 {
                    string_items(items@)
                } else {
                    default_templates()
                },
                _ => default_templates(),
            }
        },
        None => default_templates(),
    }
}

/// The strings among `items`.
pub(crate) fn collect_string_items(items: &Vec<JsonValue>) -> (r: Vec<String>)
    ensures
        views(r@) == string_items(items@),
{
    let mut out: Vec<String> = Vec::new();
    let mut i: usize = 0;
    assert(items@.subrange(0, items.len() as int) =~= items@);
    assert(views(out@) + string_items(items@) =~= string_items(items@));
    while i < items.len()
        invariant
            i <= items.len(),
            string_items(items@) == views(out@) + string_items(
                items@.subrange(i as int, items.len() as int),
            ),
        decreases items.len() - i,
    {
        let ghost here = items@.subrange(i as int, items.len() as int);
        let ghost tail = items@.subrange(i + 1, items.len() as int);
        assert(here.subrange(1, here.len() as int) =~= tail);
        assert(here[0] == items@[i as int]);
        let ghost before = views(out@);
        match &items[i] {
            JsonValue::String(s) => {
                out.push(s.clone());
                assert(views(out@) =~= before.push(s@));
                assert(before + string_items(here) =~= views(out@) + string_items(tail));
            },
            _ => {},
        }
        i = i + 1;
    }
    assert(items@.subrange(i as int, items.len() as int) =~= Seq::<JsonValue>::empty());
    assert(views(out@) + Seq::<Seq<char>>::empty() =~= views(out@));
    out
}

/// The string member `name` of `doc`, or `fallback`.
fn read_setting(doc: Option<&JsonValue>, name: &str, fallback: &str) -> (r: String)
    ensures
        r@ == setting(crate::json::deref(doc), name@, fallback@),
{
    match doc {
        Some(d) => match d.get(name) {
            Some(JsonValue::String(s)) => s.clone(),
            _ => String::from_str(fallback),
        },
        None => String::from_str(fallback),
    }
}

/// Builds the configuration from the parsed `.i18n-viewer.json`, `None`
/// standing for a file that is absent or is not valid JSON: each setting
/// that the document does not give takes its default.
pub fn load_config(doc: Option<&JsonValue>) -> (r: Config)
    ensures
        r.default_lang@ == setting(crate::json::deref(doc), "defaultLang"@, default_lang_spec()),
        r.cache_dir@ == setting(crate::json::deref(doc), "cacheDir"@, default_cache_dir()),
        views(r.local_paths@) == configured_templates(crate::json::deref(doc)),
        r.key_prefix@ == setting(crate::json::deref(doc), "keyPrefix"@, Seq::empty()),
{
    let default_lang = read_setting(doc, "defaultLang", "en");
    let cache_dir = read_setting(doc, "cacheDir", ".i18n-cache");
    let key_prefix = read_setting(doc, "keyPrefix", "");
    proof {
        reveal_strlit("");
    }
    let local_paths = match doc {
        Some(d) => {
            let source = match d.get("localPaths") {
                Some(v) => Some(v),
                None => d.get("paths"),
            };
            match source {
                Some(JsonValue::Array(items)) => {
                    let found = collect_string_items(items);
                    if found.len() > 0 {
                        found
                    } else {
                        default_path_templates()
                    }
                },
                _ => default_path_templates(),
            }
        },
        None => default_path_templates(),
    };
    Config { default_lang, cache_dir, local_paths, key_prefix }
}


/// Without a configuration document (the file is absent or is not valid
/// JSON), or with one that gives none of the settings, every setting takes
/// the value that `Config::default` gives it.
pub proof fn law_missing_settings_are_defaults(doc: Option<JsonValue>)
    requires
        doc matches Some(d) ==> {
            &&& member(d, "defaultLang"@) is None
            &&& member(d, "cacheDir"@) is None
            &&& member(d, "localPaths"@) is None
            &&& member(d, "paths"@) is None
            &&& member(d, "keyPrefix"@) is None
        },
    ensures
        setting(doc, "defaultLang"@, default_lang_spec()) == default_lang_spec(),
        setting(doc, "cacheDir"@, default_cache_dir()) == default_cache_dir(),
        configured_templates(doc) == default_templates(),
        setting(doc, "keyPrefix"@, Seq::empty()) == Seq::<char>::empty(),
{
}

/// A configured list of templates replaces the built-in one (it is not
/// merged with it): when `localPaths` is an array holding strings, exactly
/// those strings are searched, in their order.
pub proof fn law_configured_paths_replace_defaults(d: JsonValue, items: Vec<JsonValue>)
    requires
        member(d, "localPaths"@) == Some(JsonValue::Array(items)),
        string_items(items@).len() > 0,
    ensures
        configured_templates(Some(d)) == string_items(items@),
{
}

} // verus!
