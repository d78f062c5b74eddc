//! Pieces shared by the slash commands.

use vstd::prelude::*;

use crate::config::{load_config, Config};
use crate::json::{json_error_text, parse_json, parsed_json, unique_names, JsonValue};
use crate::text::{byte_len, repeat_char, repeated};

verus! {

/// The error given when no project folder is open.
pub open spec fn no_workspace_text() -> Seq<char> {
    "No open workspace. Please open a project folder first."@
}

/// The error given when no project folder is open.
pub fn no_workspace_message() -> (r: String)
    ensures
        r@ == no_workspace_text(),
{
    String::from_str("No open workspace. Please open a project folder first.")
}

/// The box-drawing rule under a header: as many `─` as the header has
/// bytes, at most 72.
pub open spec fn rule_under(header: Seq<char>) -> Seq<char> {
    repeated('\u{2500}', if byte_len(header) as usize <= 72 { (byte_len(header) as usize) as nat } else { 72 })
}

/// Builds the rule under `header`.
pub fn make_rule(header: &str) -> (r: String)
    ensures
        r@ == rule_under(header@),
{
    let n = header.len();
    let m: usize = if n <= 72 { n } else { 72 };
    repeat_char('\u{2500}', m)
}

/// The file, relative to the project root, that holds the configuration.
pub open spec fn config_file() -> Seq<char> {
    ".i18n-viewer.json"@
}

/// The error given when a translation file is not valid JSON.
pub open spec fn parse_failure_text(path: Seq<char>, err: Seq<char>) -> Seq<char> {
    "Failed to parse '"@ + path + "': "@ + err
}

/// Builds the error given when the file at `path` is not valid JSON.
pub fn parse_failure_message(path: &str, err: &str) -> (r: String)
    ensures
        r@ == parse_failure_text(path@, err@),
{
    let mut r = String::from_str("Failed to parse '");
    r.append(path);
    r.append("': ");
    r.append(err);
    r
}

/// Whether parsing `text` as JSON gives `out`: a value holding the
/// document that `parsed_json` names (no name twice in one object), or
/// the parser's error message where `text` is not valid JSON.
pub open spec fn parse_gives(text: Seq<char>, out: Result<JsonValue, String>) -> bool {
    match out {
        Ok(v) => parsed_json(text) == Some(v.data()) && unique_names(v),
        Err(e) => parsed_json(text) is None && e@ == json_error_text(text),
    }
}

/// `config` holds the settings that the configuration document `doc` gives
/// (`None`: no usable document).
pub open spec fn config_from(config: Config, doc: Option<JsonValue>) -> bool {
    &&& config.default_lang@ == crate::config::setting(doc, "defaultLang"@, crate::config::default_lang_spec())
    &&& config.cache_dir@ == crate::config::setting(doc, "cacheDir"@, crate::config::default_cache_dir())
    &&& crate::text::views(config.local_paths@) == crate::config::configured_templates(doc)
    &&& config.key_prefix@ == crate::config::setting(doc, "keyPrefix"@, Seq::empty())
}

/// `doc` is what reading and parsing the configuration file can give:
/// the parsed document, or `None` when the file cannot be read or is not
/// valid JSON.
pub open spec fn config_doc_read<R>(read: &R, doc: Option<JsonValue>) -> bool
    where
        R: Fn(&String) -> Option<String>,
{
    match doc {
        Some(d) => exists|text: String|
            #[trigger] crate::translation::read_gives(read, config_file(), Some(text))
            && parse_gives(text@, Ok(d)),
        None => crate::translation::read_gives(read, config_file(), None) || exists|text: String, e: String|
            crate::translation::read_gives(read, config_file(), Some(text))
            && #[trigger] parse_gives(text@, Err(e)),
    }
}

/// `text` is what reading the configuration file can give, empty text
/// standing for a file that cannot be read.
pub open spec fn config_text<R: Fn(&String) -> Option<String>>(read: &R, text: String) -> bool {
    ||| crate::translation::read_gives(read, config_file(), Some(text))
    ||| crate::translation::read_gives(read, config_file(), None) && text@ == Seq::<char>::empty()
}

/// `config` is what reading the configuration file could give.
pub open spec fn configured<R>(read: &R, config: Config, doc: Option<JsonValue>) -> bool
    where
        R: Fn(&String) -> Option<String>,
{
    config_from(config, doc) && config_doc_read(read, doc)
}

/// Reads and parses the configuration file and builds the configuration
/// from it (defaults where the file is absent or invalid); also returns the
/// parsed document.
pub fn read_config<R>(read: &R) -> (r: (Config, Option<JsonValue>))
    where
        R: Fn(&String) -> Option<String>,
    requires
        forall|p: &String| #[trigger] read.requires((p,)),
    ensures
        config_from(r.0, r.1),
        config_doc_read(read, r.1),
{
    let path = String::from_str(".i18n-viewer.json");
    let doc = match read(&path) {
        Some(text) => {
            let parsed = parse_json(text.as_str());
            assert(read.ensures((&path,), Some(text)));
            assert(crate::translation::read_gives(read, config_file(), Some(text)));
            match parsed {
                Ok(v) => {
                    assert(parse_gives(text@, Ok(v)));
                    Some(v)
                },
                Err(e) => {
                    assert(parse_gives(text@, Err(e)));
                    None
                },
            }
        },
        None => {
            assert(read.ensures((&path,), None::<String>));
            assert(crate::translation::read_gives(read, config_file(), None));
            None
        },
    };
    let config = load_config(doc.as_ref());
    (config, doc)
}

} // verus!
