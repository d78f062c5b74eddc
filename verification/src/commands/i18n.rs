//! `/i18n <key> [lang]`: look up one translation key and show its value.

use vstd::prelude::*;

use crate::commands::shared::{
    config_from, configured,
    config_file, config_text,
    parse_gives,
    make_rule, no_workspace_message, no_workspace_text, parse_failure_message, parse_failure_text,
    read_config, rule_under,
};
use crate::json::{member, parse_json, string_of, JsonValue};
use crate::output::{whole_text, whole_text_output, CommandOutput};
use crate::text::join;
use crate::config::{setting, Config};
use crate::translation::{found_first, none_found, not_found_message, search_order, read_gives, find_translation, format_value, lines_of, resolve, resolve_translation};

verus! {

/// The answer to `/i18n` without a key.
pub open spec fn usage_text() -> Seq<char> {
    "Usage: /i18n <key> [lang]\n\nExamples:\n  /i18n common.button.save\n  /i18n common.button.save zh\n  /i18n auth.errors.invalidEmail fr\n\nThe default language is 'en' (override with .i18n-viewer.json)."@
}

/// Builds the answer to `/i18n` without a key.
pub fn usage_message() -> (r: String)
    ensures
        r@ == usage_text(),
{
    String::from_str(
        "Usage: /i18n <key> [lang]\n\nExamples:\n  /i18n common.button.save\n  /i18n common.button.save zh\n  /i18n auth.errors.invalidEmail fr\n\nThe default language is 'en' (override with .i18n-viewer.json).",
    )
}

/// The URL configured under `remoteSources` for `lang` in the
/// configuration document `cfg`, if any.
pub open spec fn remote_url(cfg: JsonValue, lang: Seq<char>) -> Option<Seq<char>> {
    match member(cfg, "remoteSources"@) {
        Some(sources) => string_of(member(sources, lang)),
        None => None,
    }
}

/// The error for a language whose translations were not found: the search
/// error `base`, then a hint on how to make them available. `cfg` is the
/// configuration document (`null` where it is absent or invalid).
pub open spec fn missing_translation_text(base: Seq<char>, lang: Seq<char>, cfg: JsonValue) -> Seq<char> {
    match remote_url(cfg, lang) {
        Some(url) => base + "\n\nHint: remoteSources[\""@ + lang + "\"] is configured ("@ + url
            + ")\nbut the local cache is empty.\n\u{2192} Run /i18n-sync to download and cache it, then retry."@,
        None => base + "\n\nTip: add the language file path or a remote source in .i18n-viewer.json:\n{\n  \"defaultLang\": \""@
            + lang + "\",\n  \"localPaths\": [\"locales/{lang}.json\"],\n  \"remoteSources\": { \""@ + lang
            + "\": \"https://example.com/"@ + lang + ".json\" }\n}"@,
    }
}

/// Builds the error for a language whose translations were not found.
pub fn missing_translation_message(base: &str, lang: &str, cfg: &JsonValue) -> (r: String)
    ensures
        r@ == missing_translation_text(base@, lang@, *cfg),
{
    let url = match cfg.get("remoteSources") {
        Some(sources) => match sources.get(lang) {
            Some(JsonValue::String(u)) => Some(u),
            _ => None,
        },
        None => None,
    };
    let mut r = String::from_str(base);
    match url {
        Some(u) => {
            r.append("\n\nHint: remoteSources[\"");
            r.append(lang);
            r.append("\"] is configured (");
            r.append(u.as_str());
            r.append(")\nbut the local cache is empty.\n\u{2192} Run /i18n-sync to download and cache it, then retry.");
        },
        None => {
            r.append("\n\nTip: add the language file path or a remote source in .i18n-viewer.json:\n{\n  \"defaultLang\": \"");
            r.append(lang);
            r.append("\",\n  \"localPaths\": [\"locales/{lang}.json\"],\n  \"remoteSources\": { \"");
            r.append(lang);
            r.append("\": \"https://example.com/");
            r.append(lang);
            r.append(".json\" }\n}");
        },
    }
    r
}

/// The header line of the answer: the key, the language, and a note when
/// the key names a namespace rather than a single string.
pub open spec fn answer_header(full_key: Seq<char>, lang: Seq<char>, namespace: bool) -> Seq<char> {
    answer_label(full_key, lang) + if namespace {
        " (namespace \u{2014} showing all leaf keys)"@
    } else {
        Seq::empty()
    }
}

/// The label of the answer's section.
pub open spec fn answer_label(full_key: Seq<char>, lang: Seq<char>) -> Seq<char> {
    "i18n: "@ + full_key + " ["@ + lang + "]"@
}

/// The text of the answer for the value `v` of `full_key` in the file at `path`.
pub open spec fn answer_text(v: JsonValue, full_key: Seq<char>, lang: Seq<char>, path: Seq<char>) -> Seq<char> {
    let header = answer_header(full_key, lang, v.is_container());
    header + "\n"@ + rule_under(header) + "\n"@ + join(lines_of(v, Seq::empty()), "\n"@) + "\n\n"@
        + "(from "@ + path + ")"@
}

/// The error for a key that the file does not hold.
pub open spec fn key_not_found_text(full_key: Seq<char>, path: Seq<char>) -> Seq<char> {
    "Key '"@ + full_key + "' not found in '"@ + path + "'"@
}

/// The answer to `/i18n` once the translation file at `found_path` has been
/// read and parsed into `data`: the value `key` resolves to (with the
/// configured `key_prefix`), or an error naming the prefixed key.
pub fn answer(data: &JsonValue, key: &str, lang: &str, key_prefix: &str, found_path: &str) -> (r: Result<CommandOutput, String>)
    ensures
        match resolve(*data, key@, key_prefix@) {
            Some(v) => r matches Ok(out) && whole_text_output(
                out,
                answer_text(v, key_prefix@ + key@, lang@, found_path@),
                answer_label(key_prefix@ + key@, lang@),
            ),
            None => r matches Err(e) && e@ == key_not_found_text(key_prefix@ + key@, found_path@),
        },
{
    let mut full_key = String::from_str(key_prefix);
    full_key.append(key);
    match resolve_translation(data, key, key_prefix) {
        None => {
            let mut e = String::from_str("Key '");
            e.append(full_key.as_str());
            e.append("' not found in '");
            e.append(found_path);
            e.append("'");
            Err(e)
        },
        Some(value) => {
            let translation = format_value(value);
            let namespace = match value {
                JsonValue::Object(_) => true,
                JsonValue::Array(_) => true,
                _ => false,
            };
            let mut label = String::from_str("i18n: ");
            label.append(full_key.as_str());
            label.append(" [");
            label.append(lang);
            label.append("]");
            let mut header = label.clone();
            if namespace {
                header.append(" (namespace \u{2014} showing all leaf keys)");
            }
            assert(header@ == answer_header(key_prefix@ + key@, lang@, value.is_container())) by {
                reveal_strlit("");
                assert(label@ + Seq::<char>::empty() =~= label@);
            }
            let rule = make_rule(header.as_str());
            let mut text = header;
            text.append("\n");
            text.append(rule.as_str());
            text.append("\n");
            text.append(translation.as_str());
            text.append("\n\n");
            text.append("(from ");
            text.append(found_path);
            text.append(")");
            Ok(whole_text(text, label))
        },
    }
}


/// The language `/i18n` looks in: the second argument, else the
/// configured default.
pub open spec fn lookup_lang(args: Seq<String>, config: Config) -> Seq<char> {
    if args.len() > 1 {
        args[1]@
    } else {
        config.default_lang@
    }
}

/// `out` answers `/i18n` with the arguments `args` under the configuration
/// `config`: the file at `path`, the first of the search order that could
/// be read, gave `content`, which parses to `data`, in which the key
/// resolves.
pub open spec fn answered<R>(
    out: CommandOutput,
    read: &R,
    args: Seq<String>,
    config: Config,
    doc: Option<JsonValue>,
    data: JsonValue,
    content: String,
    path: Seq<char>,
) -> bool
    where
        R: Fn(&String) -> Option<String>,
{
    let key = args[0]@;
    let lang = lookup_lang(args, config);
    let prefix = config.key_prefix@;
    &&& configured(read, config, doc)
    &&& found_first(read, search_order(config, lang), path, content)
    &&& parse_gives(content@, Ok(data))
    &&& resolve(data, key, prefix) is Some
    &&& whole_text_output(
        out,
        answer_text(resolve(data, key, prefix)->Some_0, prefix + key, lang, path),
        answer_label(prefix + key, lang),
    )
}

/// `cfg` is what reading and parsing the configuration file for a hint can
/// give: the parsed document, or `null` when the file (read as empty text
/// when it cannot be read) is not valid JSON.
pub open spec fn hint_config_read<R>(read: &R, cfg: JsonValue) -> bool
    where
        R: Fn(&String) -> Option<String>,
{
    exists|text: String|
        #[trigger] config_text(read, text) && (parse_gives(text@, Ok(cfg)) || (
        (exists|e: String| #[trigger] parse_gives(text@, Err(e))) && cfg == JsonValue::Null))
}

/// `e` is an error that `/i18n` gives for the arguments `args` under the
/// configuration `config`: no file of the search order could be read (the
/// error then carries a hint drawn from the configuration document `cfg`),
/// the first one read is not valid JSON, or it does not hold the key.
pub open spec fn i18n_error<R>(
    e: Seq<char>,
    read: &R,
    args: Seq<String>,
    config: Config,
    doc: Option<JsonValue>,
) -> bool
    where
        R: Fn(&String) -> Option<String>,
{
    let key = args[0]@;
    let lang = lookup_lang(args, config);
    let prefix = config.key_prefix@;
    let order = search_order(config, lang);
    &&& configured(read, config, doc)
    &&& {
        ||| none_found(read, order) && exists|cfg: JsonValue|
            #[trigger] hint_config_read(read, cfg)
            && e == missing_translation_text(not_found_message(lang, order), lang, cfg)
        ||| exists|path: Seq<char>, content: String, err: String|
            #![trigger found_first(read, order, path, content), parse_gives(content@, Err(err))]
            found_first(read, order, path, content) && parse_gives(content@, Err(err))
            && e == parse_failure_text(path, err@)
        ||| exists|path: Seq<char>, content: String, data: JsonValue|
            #![trigger found_first(read, order, path, content), parse_gives(content@, Ok(data))]
            found_first(read, order, path, content) && parse_gives(content@, Ok(data))
            && resolve(data, key, prefix) is None && e == key_not_found_text(prefix + key, path)
    }
}

/// `/i18n <key> [lang]`: looks `key` up in the translations of `lang` (by
/// default the configured language) and shows its value. `worktree` reads a
/// file of the open project (`None` when no project is open).
pub fn run_i18n<R>(args: Vec<String>, worktree: Option<&R>) -> (r: Result<CommandOutput, String>)
    where
        R: Fn(&String) -> Option<String>,
    requires
        worktree matches Some(read) ==> forall|p: &String| #[trigger] read.requires((p,)),
    ensures
        args@.len() == 0 ==> (r matches Err(e) && e@ == usage_text()),
        args@.len() > 0 && worktree is None ==> (r matches Err(e) && e@ == no_workspace_text()),
        args@.len() > 0 && worktree is Some ==> (worktree matches Some(read) && exists|
            config: Config,
            doc: Option<JsonValue>,
        |
            #![trigger configured(read, config, doc)]
            match r {
                Ok(out) => exists|data: JsonValue, content: String, path: Seq<char>|
                    #[trigger] answered(out, read, args@, config, doc, data, content, path),
                Err(e) => i18n_error(e@, read, args@, config, doc),
            }),
{
    if args.len() == 0 {
        return Err(usage_message());
    }
    let read = match worktree {
        Some(read) => read,
        None => {
            return Err(no_workspace_message());
        },
    };
    let (config, doc) = read_config(read);
    assert(configured(read, config, doc));
    let lang: String = if args.len() > 1 {
        args[1].clone()
    } else {
        config.default_lang.clone()
    };
    match find_translation(read, lang.as_str(), &config) {
        Err(base) => {
            let cfg_path = String::from_str(".i18n-viewer.json");
            let cfg_read = read(&cfg_path);
            assert(read.ensures((&cfg_path,), cfg_read));
            let cfg_raw = match cfg_read {
                Some(t) => {
                    assert(read_gives(read, config_file(), Some(t)));
                    t
                },
                None => {
                    assert(read_gives(read, config_file(), None));
                    String::new()
                },
            };
            assert(config_text(read, cfg_raw));
            let parsed = parse_json(cfg_raw.as_str());
            let cfg_json = match parsed {
                Ok(v) => {
                    assert(parse_gives(cfg_raw@, Ok(v)));
                    v
                },
                Err(e) => {
                    assert(parse_gives(cfg_raw@, Err(e)));
                    JsonValue::Null
                },
            };
            assert(hint_config_read(read, cfg_json));
            let e = missing_translation_message(base.as_str(), lang.as_str(), &cfg_json);
            assert(i18n_error(e@, read, args@, config, doc));
            let r: Result<CommandOutput, String> = Err(e);
            assert(i18n_error(r->Err_0@, read, args@, config, doc));
            r
        },
        Ok((content, found_path)) => {
            let parsed = parse_json(content.as_str());
            match parsed {
                Err(err) => {
                    assert(parse_gives(content@, Err(err)));
                    let e = parse_failure_message(found_path.as_str(), err.as_str());
                    assert(i18n_error(e@, read, args@, config, doc));
                    let r: Result<CommandOutput, String> = Err(e);
                    assert(i18n_error(r->Err_0@, read, args@, config, doc));
                    r
                },
                Ok(json) => {
                    assert(parse_gives(content@, Ok(json)));
                    let r = answer(&json, args[0].as_str(), lang.as_str(), config.key_prefix.as_str(), found_path.as_str());
                    proof {
                        if r is Err {
                            assert(i18n_error(r->Err_0@, read, args@, config, doc));
                        }
                        if r is Ok {
                            assert(answered(r->Ok_0, read, args@, config, doc, json, content, found_path@));
                        }
                    }
                    r
                },
            }
        },
    }
}

/// With only a key given, `/i18n` looks in the configured default
/// language (the `defaultLang` setting of the configuration file, `en`
/// without one), and the answer comes from the first readable file of that
/// language's search order; a second argument names the language instead.
pub proof fn law_lookup_default_language<R>(
    read: &R,
    args: Seq<String>,
    config: Config,
    doc: Option<JsonValue>,
    out: CommandOutput,
    data: JsonValue,
    content: String,
    path: Seq<char>,
)
    where
        R: Fn(&String) -> Option<String>,
    requires
        config_from(config, doc),
        args.len() >= 1,
    ensures
        args.len() == 1 ==> lookup_lang(args, config) == setting(doc, "defaultLang"@, "en"@),
        args.len() > 1 ==> lookup_lang(args, config) == args[1]@,
        args.len() == 1 && answered(out, read, args, config, doc, data, content, path) ==> found_first(
            read,
            search_order(config, config.default_lang@),
            path,
            content,
        ),
{
    reveal_strlit("en");
}

} // verus!
