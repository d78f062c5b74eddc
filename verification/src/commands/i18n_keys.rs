//! `/i18n-keys [lang]`: list every leaf key of a translation file, sorted.

use vstd::prelude::*;

use crate::commands::shared::{
    config_from, configured,
    parse_failure_text,
    make_rule, no_workspace_message, no_workspace_text, parse_failure_message, parse_gives,
    read_config, rule_under,
};
use crate::json::{parse_json, JsonValue};
use crate::output::{whole_text, whole_text_output, CommandOutput};
use crate::text::{decimal, join, join_strings, lex_sorted, push_decimal, sort_strings, views};
use crate::config::{setting, Config};
use crate::translation::{found_first, none_found, not_found_message, search_order, collect_keys, find_translation, keys_of};

verus! {

/// The header of the key list of `lang` from the file at `path`.
pub open spec fn keys_header(lang: Seq<char>, path: Seq<char>) -> Seq<char> {
    "i18n keys ["@ + lang + "] \u{2014} "@ + path
}

/// The text of the key list: header, rule, one key per line, and the count.
pub open spec fn keys_text(sorted: Seq<Seq<char>>, lang: Seq<char>, path: Seq<char>) -> Seq<char> {
    let header = keys_header(lang, path);
    header + "\n"@ + rule_under(header) + "\n"@ + join(sorted, "\n"@) + "\n\n"@ + "("@
        + decimal(sorted.len()) + " keys total)"@
}

/// The label of the key list's section.
pub open spec fn keys_label(count: nat, lang: Seq<char>) -> Seq<char> {
    "i18n keys ["@ + lang + "] ("@ + decimal(count) + " keys)"@
}

/// `sorted` holds the leaf keys of `data`, in lexicographic order.
pub open spec fn sorted_keys_of(data: JsonValue, sorted: Seq<Seq<char>>) -> bool {
    &&& lex_sorted(sorted)
    &&& sorted.to_multiset() == keys_of(data, Seq::empty()).to_multiset()
}

/// The key list of the translations `data` of `lang`, read from `found_path`.
pub fn keys_answer(data: &JsonValue, lang: &str, found_path: &str) -> (r: CommandOutput)
    ensures
        exists|sorted: Seq<Seq<char>>|
            #[trigger] sorted_keys_of(*data, sorted) && whole_text_output(
                r,
                keys_text(sorted, lang@, found_path@),
                keys_label(sorted.len(), lang@),
            ),
{
    let mut keys: Vec<String> = Vec::new();
    collect_keys(data, "", &mut keys);
    assert(views(keys@) =~= keys_of(*data, ""@)) by {
        reveal_strlit("");
        assert(views(Seq::<String>::empty()) =~= Seq::<Seq<char>>::empty());
        assert(Seq::<Seq<char>>::empty() + keys_of(*data, ""@) =~= keys_of(*data, ""@));
    }
    assert(""@ =~= Seq::<char>::empty()) by {
        reveal_strlit("");
    }
    let sorted = sort_strings(keys);
    let total = sorted.len();
    let key_list = join_strings(&sorted, "\n");
    let mut header = String::from_str("i18n keys [");
    header.append(lang);
    header.append("] \u{2014} ");
    header.append(found_path);
    let rule = make_rule(header.as_str());
    let mut text = header;
    text.append("\n");
    text.append(rule.as_str());
    text.append("\n");
    text.append(key_list.as_str());
    text.append("\n\n");
    text.append("(");
    push_decimal(&mut text, total);
    text.append(" keys total)");
    let mut label = String::from_str("i18n keys [");
    label.append(lang);
    label.append("] (");
    push_decimal(&mut label, total);
    label.append(" keys)");
    assert(views(sorted@).len() == total);
    let r = whole_text(text, label);
    assert(sorted_keys_of(*data, views(sorted@)));
    r
}

/// The language `/i18n-keys` lists: the argument, else the configured
/// default.
pub open spec fn listing_lang(args: Seq<String>, config: Config) -> Seq<char> {
    if args.len() > 0 {
        args[0]@
    } else {
        config.default_lang@
    }
}

/// `out` lists the keys for the arguments `args` under the configuration
/// `config`: the file at `path`, the first of the search order that could
/// be read, gave `content`, which parses to `data`.
pub open spec fn listed<R>(
    out: CommandOutput,
    read: &R,
    args: Seq<String>,
    config: Config,
    doc: Option<JsonValue>,
    data: JsonValue,
    content: String,
    path: Seq<char>,
) -> bool
    where
        R: Fn(&String) -> Option<String>,
{
    let lang = listing_lang(args, config);
    &&& configured(read, config, doc)
    &&& found_first(read, search_order(config, lang), path, content)
    &&& parse_gives(content@, Ok(data))
    &&& exists|sorted: Seq<Seq<char>>|
        #[trigger] sorted_keys_of(data, sorted) && whole_text_output(
            out,
            keys_text(sorted, lang, path),
            keys_label(sorted.len(), lang),
        )
}

/// `e` is an error that `/i18n-keys` gives for the arguments `args` under
/// the configuration `config`: no file of the search order could be read,
/// or the first one read is not valid JSON.
pub open spec fn keys_error<R>(
    e: Seq<char>,
    read: &R,
    args: Seq<String>,
    config: Config,
    doc: Option<JsonValue>,
) -> bool
    where
        R: Fn(&String) -> Option<String>,
{
    let lang = listing_lang(args, config);
    let order = search_order(config, lang);
    &&& configured(read, config, doc)
    &&& {
        ||| none_found(read, order) && e == not_found_message(lang, order)
        ||| exists|path: Seq<char>, content: String, err: String|
            #![trigger found_first(read, order, path, content), parse_gives(content@, Err(err))]
            found_first(read, order, path, content) && parse_gives(content@, Err(err))
            && e == parse_failure_text(path, err@)
    }
}

/// `/i18n-keys [lang]`: lists, sorted, every leaf key of the translations
/// of `lang` (by default the configured language). `worktree` reads a file
/// of the open project (`None` when no project is open).
pub fn run_i18n_keys<R>(args: Vec<String>, worktree: Option<&R>) -> (r: Result<CommandOutput, String>)
    where
        R: Fn(&String) -> Option<String>,
    requires
        worktree matches Some(read) ==> forall|p: &String| #[trigger] read.requires((p,)),
    ensures
        worktree is None ==> (r matches Err(e) && e@ == no_workspace_text()),
        worktree is Some ==> (worktree matches Some(read) && exists|config: Config, doc: Option<JsonValue>|
            #![trigger configured(read, config, doc)]
            match r {
                Ok(out) => exists|data: JsonValue, content: String, path: Seq<char>|
                    #[trigger] listed(out, read, args@, config, doc, data, content, path),
                Err(e) => keys_error(e@, read, args@, config, doc),
            }),
{
    let read = match worktree {
        Some(read) => read,
        None => {
            return Err(no_workspace_message());
        },
    };
    let (config, doc) = read_config(read);
    assert(configured(read, config, doc));
    let lang: String = if args.len() > 0 {
        args[0].clone()
    } else {
        config.default_lang.clone()
    };
    let (content, found_path) = match find_translation(read, lang.as_str(), &config) {
        Ok(found) => found,
        Err(e) => {
            assert(keys_error(e@, read, args@, config, doc));
            let r: Result<CommandOutput, String> = Err(e);
            assert(keys_error(r->Err_0@, read, args@, config, doc));
            return r;
        },
    };
    let parsed = parse_json(content.as_str());
    match parsed {
        Err(err) => {
            assert(parse_gives(content@, Err(err)));
            let e = parse_failure_message(found_path.as_str(), err.as_str());
            assert(keys_error(e@, read, args@, config, doc));
            let r: Result<CommandOutput, String> = Err(e);
            assert(keys_error(r->Err_0@, read, args@, config, doc));
            r
        },
        Ok(json) => {
            assert(parse_gives(content@, Ok(json)));
            let out = keys_answer(&json, lang.as_str(), found_path.as_str());
            assert(listed(out, read, args@, config, doc, json, content, found_path@));
            let r: Result<CommandOutput, String> = Ok(out);
            assert(r matches Ok(o) && listed(o, read, args@, config, doc, json, content, found_path@));
            r
        },
    }
}

/// With no argument, `/i18n-keys` lists the configured default language
/// (the `defaultLang` setting of the configuration file, `en` without
/// one): the file listed is the first readable one of that language's
/// search order, and an error names that language's search.
pub proof fn law_keys_default_language<R>(
    read: &R,
    config: Config,
    doc: Option<JsonValue>,
    out: CommandOutput,
    data: JsonValue,
    content: String,
    path: Seq<char>,
    e: Seq<char>,
)
    where
        R: Fn(&String) -> Option<String>,
    requires
        config_from(config, doc),
    ensures
        listing_lang(Seq::empty(), config) == config.default_lang@,
        config.default_lang@ == setting(doc, "defaultLang"@, "en"@),
        listed(out, read, Seq::empty(), config, doc, data, content, path) ==> found_first(
            read,
            search_order(config, config.default_lang@),
            path,
            content,
        ),
        keys_error(e, read, Seq::empty(), config, doc) ==> (
            e == not_found_message(config.default_lang@, search_order(config, config.default_lang@))
            || exists|p: Seq<char>, c: String| #[trigger] found_first(read, search_order(config, config.default_lang@), p, c)),
{
    reveal_strlit("en");
    if keys_error(e, read, Seq::empty(), config, doc) {
        let order = search_order(config, config.default_lang@);
        if e != not_found_message(config.default_lang@, order) {
            let (p, c, err) = choose|p: Seq<char>, c: String, err: String|
                #![trigger found_first(read, order, p, c), parse_gives(c@, Err(err))]
                found_first(read, order, p, c) && parse_gives(c@, Err(err)) && e == parse_failure_text(p, err@);
            assert(found_first(read, order, p, c));
        }
    }
}

} // verus!
