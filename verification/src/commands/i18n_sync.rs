//! `/i18n-sync [lang]`: report which languages are cached or available
//! locally, and ask the language server to download the remote ones.

use vstd::prelude::*;

use crate::commands::shared::{
    config_doc_read, config_file, config_from, config_text, no_workspace_message, no_workspace_text, parse_gives, read_config,
};
use crate::config::{collect_string_items, setting, string_items, Config};
use crate::json::{member, parse_json, str_eq, JsonValue};
use crate::output::{whole_text, whole_text_output, CommandOutput};
use crate::text::{
    decimal, join, join_strings, pair_views, push_decimal, repeat_char, repeated, sort_pairs_by_first,
    sorted_by_first, views, with_first,
};
use crate::translation::{cache_file, collect_keys, keys_of, read_gives, resolve_path, resolve_paths};

verus! {

/// What became of the request to download the remote translations.
pub enum SyncTrigger {
    /// The request was handed to the language server.
    Written,
    /// The request could not be written; the reason.
    Failed(String),
    /// The language server has not started yet.
    NoServer,
}

/// What is known of one language's translations.
pub enum CacheStatus {
    /// The cache holds them, with this many keys.
    Cached(usize),
    /// Not cached, but a remote source is configured for them.
    FetchPending,
    /// Not cached and no remote source, but a project file holds them.
    LocalFile,
    /// Not cached, no remote source, no project file.
    Missing,
}

/// The `(language, url)` pairs of the string members of `entries`, in order.
pub open spec fn string_members(entries: Seq<(String, JsonValue)>) -> Seq<(Seq<char>, Seq<char>)>
    decreases entries.len(),
{
    if entries.len() == 0 {
        Seq::empty()
    } else {
        let rest = string_members(entries.subrange(1, entries.len() as int));
        match entries[0].1 {
            JsonValue::String(s) => seq![(entries[0].0@, s@)] + rest,
            _ => rest,
        }
    }
}

/// The remote sources configured in `cfg`: the string members of its
/// `remoteSources` object, as `(language, url)` pairs.
pub open spec fn remote_entries(cfg: JsonValue) -> Seq<(Seq<char>, Seq<char>)> {
    match member(cfg, "remoteSources"@) {
        Some(JsonValue::Object(entries)) => string_members(entries@),
        _ => Seq::empty(),
    }
}

/// The remote sources configured in `cfg`, sorted by language (sources of
/// one language keeping their order).
pub fn remote_sources(cfg: &JsonValue) -> (r: Vec<(String, String)>)
    ensures
        sorted_by_first(pair_views(r@)),
        forall|k: Seq<char>| #[trigger] with_first(pair_views(r@), k) == with_first(remote_entries(*cfg), k),
        pair_views(r@).to_multiset() == remote_entries(*cfg).to_multiset(),
{
    let mut found: Vec<(String, String)> = Vec::new();
    match cfg.get("remoteSources") {
        Some(JsonValue::Object(entries)) => {
            let mut i: usize = 0;
            assert(entries@.subrange(0, entries.len() as int) =~= entries@);
            assert(pair_views(found@) + string_members(entries@) =~= string_members(entries@));
            while i < entries.len()
                invariant
                    i <= entries.len(),
                    string_members(entries@) == pair_views(found@) + string_members(
                        entries@.subrange(i as int, entries.len() as int),
                    ),
                decreases entries.len() - i,
            {
                let ghost here = entries@.subrange(i as int, entries.len() as int);
                let ghost tail = entries@.subrange(i + 1, entries.len() as int);
                assert(here.subrange(1, here.len() as int) =~= tail);
                assert(here[0] == entries@[i as int]);
                let ghost before = pair_views(found@);
                match &entries[i].1 {
                    JsonValue::String(url) => {
                        found.push((entries[i].0.clone(), url.clone()));
                        assert(pair_views(found@) =~= before.push((entries@[i as int].0@, url@)));
                        assert(before + string_members(here) =~= pair_views(found@) + string_members(tail));
                    },
                    _ => {},
                }
                i = i + 1;
            }
            assert(entries@.subrange(i as int, entries.len() as int) =~= Seq::<(String, JsonValue)>::empty());
            assert(pair_views(found@) + Seq::<(Seq<char>, Seq<char>)>::empty() =~= pair_views(found@));
        },
        _ => {
            assert(pair_views(found@) =~= Seq::<(Seq<char>, Seq<char>)>::empty());
        },
    }
    sort_pairs_by_first(found)
}

/// The languages of `pairs`.
pub open spec fn firsts(pairs: Seq<(Seq<char>, Seq<char>)>) -> Seq<Seq<char>> {
    pairs.map_values(|p: (Seq<char>, Seq<char>)| p.0)
}

/// `list` followed by each item of `more` that is not already in the list
/// when its turn comes.
pub open spec fn add_new(list: Seq<Seq<char>>, more: Seq<Seq<char>>) -> Seq<Seq<char>>
    decreases more.len(),
{
    if more.len() == 0 {
        list
    } else {
        add_new(if list.contains(more[0]) { list } else { list.push(more[0]) }, more.skip(1))
    }
}

/// The strings of the `languages` array of `cfg`.
pub open spec fn listed_languages(cfg: JsonValue) -> Seq<Seq<char>> {
    match member(cfg, "languages"@) {
        Some(JsonValue::Array(items)) => string_items(items@),
        _ => Seq::empty(),
    }
}

/// The languages reported on when no language is named: the default
/// language, then those of `languages`, then those with a remote source,
/// each once.
pub open spec fn report_langs(default_lang: Seq<char>, cfg: JsonValue, remote: Seq<(Seq<char>, Seq<char>)>) -> Seq<Seq<char>> {
    add_new(add_new(seq![default_lang], listed_languages(cfg)), firsts(remote))
}

proof fn lemma_add_new(list: Seq<Seq<char>>, more: Seq<Seq<char>>)
    requires
        list.no_duplicates(),
    ensures
        add_new(list, more).no_duplicates(),
        add_new(list, more).len() >= list.len(),
        forall|i: int| 0 <= i < list.len() ==> #[trigger] add_new(list, more)[i] == list[i],
        forall|i: int| 0 <= i < more.len() ==> add_new(list, more).contains(#[trigger] more[i]),
        forall|x: Seq<char>| list.contains(x) ==> #[trigger] add_new(list, more).contains(x),
    decreases more.len(),
{
    if more.len() > 0 {
        let next = if list.contains(more[0]) { list } else { list.push(more[0]) };
        assert(next.no_duplicates()) by {
            if !list.contains(more[0]) {
                assert forall|i: int, j: int| 0 <= i < next.len() && 0 <= j < next.len() && i != j implies next[i] != next[j] by {
                    if i == list.len() as int {
                        assert(!list.contains(next[j]) || next[j] != more[0]);
                    } else if j == list.len() as int {
                        assert(next[i] == list[i]);
                    }
                }
            }
        }
        lemma_add_new(next, more.skip(1));
        assert forall|i: int| 0 <= i < more.len() implies add_new(list, more).contains(#[trigger] more[i]) by {
            if i == 0 {
                assert(next.contains(more[0])) by {
                    if !list.contains(more[0]) {
                        assert(next[list.len() as int] == more[0]);
                    }
                }
            } else {
                assert(more.skip(1)[i - 1] == more[i]);
            }
        }
        assert forall|x: Seq<char>| list.contains(x) implies #[trigger] add_new(list, more).contains(x) by {
            let k = choose|k: int| 0 <= k < list.len() && list[k] == x;
            assert(next[k] == x);
        }
    }
}

/// The languages reported on when none is named come each once, the
/// default language first, and include every language of `languages` and
/// every language with a remote source.
pub proof fn law_report_langs_each_once(default_lang: Seq<char>, cfg: JsonValue, remote: Seq<(Seq<char>, Seq<char>)>)
    ensures
        report_langs(default_lang, cfg, remote).no_duplicates(),
        report_langs(default_lang, cfg, remote)[0] == default_lang,
        forall|i: int| 0 <= i < listed_languages(cfg).len()
            ==> report_langs(default_lang, cfg, remote).contains(#[trigger] listed_languages(cfg)[i]),
        forall|i: int| 0 <= i < remote.len()
            ==> report_langs(default_lang, cfg, remote).contains(#[trigger] remote[i].0),
{
    let start = seq![default_lang];
    let mid = add_new(start, listed_languages(cfg));
    lemma_add_new(start, listed_languages(cfg));
    lemma_add_new(mid, firsts(remote));
    assert forall|i: int| 0 <= i < remote.len() implies report_langs(default_lang, cfg, remote).contains(#[trigger] remote[i].0) by {
        assert(firsts(remote)[i] == remote[i].0);
    }
}

/// Whether `list` holds `x`.
fn contains_str(list: &Vec<String>, x: &str) -> (r: bool)
    ensures
        r == views(list@).contains(x@),
{
    let mut i: usize = 0;
    while i < list.len()
        invariant
            i <= list.len(),
            forall|k: int| 0 <= k < i ==> list@[k]@ != x@,
        decreases list.len() - i,
    {
        if str_eq(list[i].as_str(), x) {
            assert(views(list@)[i as int] == x@);
            return true;
        }
        i = i + 1;
    }
    assert forall|k: int| 0 <= k < views(list@).len() implies views(list@)[k] != x@ by {
        assert(views(list@)[k] == list@[k]@);
    }
    false
}

/// Appends to `list` each of `more` that it does not hold yet.
fn append_new(list: &mut Vec<String>, more: &Vec<String>)
    ensures
        views(final(list)@) == add_new(views(old(list)@), views(more@)),
{
    let ghost start = views(list@);
    let mut i: usize = 0;
    assert(views(more@).skip(0) =~= views(more@));
    while i < more.len()
        invariant
            i <= more.len(),
            add_new(start, views(more@)) == add_new(views(list@), views(more@).skip(i as int)),
        decreases more.len() - i,
    {
        let ghost rest = views(more@).skip(i as int);
        assert(rest[0] == more@[i as int]@);
        assert(rest.skip(1) =~= views(more@).skip(i + 1));
        if !contains_str(list, more[i].as_str()) {
            let ghost before = views(list@);
            list.push(more[i].clone());
            assert(views(list@) =~= before.push(more@[i as int]@));
        }
        i = i + 1;
    }
    assert(views(more@).skip(i as int) =~= Seq::<Seq<char>>::empty());
}

/// The languages reported on when no language is named.
fn languages_to_report(default_lang: &String, cfg: &JsonValue, remote: &Vec<(String, String)>) -> (r: Vec<String>)
    ensures
        views(r@) == report_langs(default_lang@, *cfg, pair_views(remote@)),
{
    let mut langs: Vec<String> = Vec::new();
    langs.push(default_lang.clone());
    assert(views(langs@) =~= seq![default_lang@]);
    let listed: Vec<String> = match cfg.get("languages") {
        Some(JsonValue::Array(items)) => collect_string_items(items),
        _ => Vec::new(),
    };
    assert(views(listed@) =~= listed_languages(*cfg));
    append_new(&mut langs, &listed);
    let mut remote_langs: Vec<String> = Vec::new();
    let mut i: usize = 0;
    while i < remote.len()
        invariant
            i <= remote.len(),
            views(remote_langs@) == firsts(pair_views(remote@)).take(i as int),
        decreases remote.len() - i,
    {
        let ghost before = views(remote_langs@);
        push_line(&mut remote_langs, remote[i].0.clone());
        assert(firsts(pair_views(remote@)).take(i + 1) =~= before.push(remote@[i as int].0@));
        i = i + 1;
    }
    assert(firsts(pair_views(remote@)).take(i as int) =~= firsts(pair_views(remote@)));
    append_new(&mut langs, &remote_langs);
    langs
}

/// The report line for language `lang`, whose cache file is `cache_path`.
pub open spec fn status_line(lang: Seq<char>, cache_path: Seq<char>, status: CacheStatus, has_remote: bool) -> Seq<char> {
    match status {
        CacheStatus::Cached(n) => "  ["@ + lang + "]  \u{2713}  "@ + cache_path + "  ("@ + decimal(n as nat) + " keys)"@
            + if has_remote { Seq::empty() } else { "  (local only)"@ },
        CacheStatus::FetchPending => "  ["@ + lang + "]  \u{2717}  not cached  \u{2192}  will fetch from remote on next hover"@,
        CacheStatus::LocalFile => "  ["@ + lang + "]  \u{2713}  local file found  (no remote source)"@,
        CacheStatus::Missing => "  ["@ + lang + "]  \u{2717}  no cache and no local file found"@,
    }
}

/// Builds the report line for language `lang`.
pub fn make_status_line(lang: &str, cache_path: &str, status: &CacheStatus, has_remote: bool) -> (r: String)
    ensures
        r@ == status_line(lang@, cache_path@, *status, has_remote),
{
    let mut r = String::from_str("  [");
    r.append(lang);
    match status {
        CacheStatus::Cached(n) => {
            r.append("]  \u{2713}  ");
            r.append(cache_path);
            r.append("  (");
            push_decimal(&mut r, *n);
            r.append(" keys)");
            if !has_remote {
                r.append("  (local only)");
            } else {
                assert(r@ + Seq::<char>::empty() =~= r@);
            }
        },
        CacheStatus::FetchPending => {
            r.append("]  \u{2717}  not cached  \u{2192}  will fetch from remote on next hover");
        },
        CacheStatus::LocalFile => {
            r.append("]  \u{2713}  local file found  (no remote source)");
        },
        CacheStatus::Missing => {
            r.append("]  \u{2717}  no cache and no local file found");
        },
    }
    r
}

/// The lines that open the report.
pub open spec fn header_lines(target: Option<Seq<char>>) -> Seq<Seq<char>> {
    seq![
        match target {
            Some(l) => "i18n Sync Status \u{2014} ["@ + l + "]"@,
            None => "i18n Sync Status"@,
        },
        repeated('\u{2500}', 48),
        Seq::empty(),
    ]
}

/// The line that lists one remote source.
pub open spec fn remote_line(p: (Seq<char>, Seq<char>)) -> Seq<char> {
    "  ["@ + p.0 + "]  "@ + p.1
}

/// The lines about the configured remote sources.
pub open spec fn remote_lines(remote: Seq<(Seq<char>, Seq<char>)>) -> Seq<Seq<char>> {
    if remote.len() == 0 {
        seq![
            "Remote sources: none configured"@,
            "  Tip: add \"remoteSources\" to .i18n-viewer.json to enable remote fetching."@,
        ]
    } else {
        seq!["Remote sources ("@ + decimal(remote.len()) + " configured):"@] + remote.map_values(
            |p: (Seq<char>, Seq<char>)| remote_line(p),
        )
    }
}

/// The lines that open the cache section.
pub open spec fn cache_head(cache_dir: Seq<char>) -> Seq<Seq<char>> {
    seq!["Cache status  ("@ + cache_dir + "/:)"@, repeated('\u{2500}', 32)]
}

/// The languages whose download is requested.
pub open spec fn langs_to_sync(target: Option<Seq<char>>, remote: Seq<(Seq<char>, Seq<char>)>) -> Seq<Seq<char>> {
    match target {
        Some(l) => seq![l],
        None => firsts(remote),
    }
}

/// The lines about the download request.
pub open spec fn sync_lines(target: Option<Seq<char>>, remote: Seq<(Seq<char>, Seq<char>)>, outcome: Option<SyncTrigger>) -> Seq<Seq<char>> {
    if remote.len() == 0 {
        seq!["Nothing to sync \u{2014} no remote sources are configured in .i18n-viewer.json."@]
    } else {
        match outcome {
            Some(SyncTrigger::Written) => seq![
                "\u{27f3}  Sync triggered for: "@ + join(langs_to_sync(target, remote), ", "@),
                "   The LSP server will download and cache the packs within a second."@,
            ],
            Some(SyncTrigger::Failed(e)) => seq![
                "\u{2717}  Could not write sync request: "@ + e@,
                "   Try hovering over any i18n key to trigger a lazy re-fetch."@,
            ],
            _ => seq![
                Seq::empty(),
                "\u{26a0}  The i18n LSP server has not started yet (open a supported source file first)."@,
                "   Once the server is running, re-run /i18n-sync to trigger a download."@,
            ],
        }
    }
}

/// All lines of the report.
pub open spec fn report_lines(
    target: Option<Seq<char>>,
    remote: Seq<(Seq<char>, Seq<char>)>,
    cache_dir: Seq<char>,
    statuses: Seq<Seq<char>>,
    outcome: Option<SyncTrigger>,
) -> Seq<Seq<char>> {
    header_lines(target) + remote_lines(remote) + seq![Seq::empty()] + cache_head(cache_dir) + statuses
        + seq![Seq::empty()] + sync_lines(target, remote, outcome)
}

/// The label of the report's section.
pub open spec fn report_label(target: Option<Seq<char>>) -> Seq<char> {
    match target {
        Some(l) => "i18n sync ["@ + l + "]"@,
        None => "i18n sync status"@,
    }
}

/// The view of an optional string.
pub open spec fn opt_view(s: Option<&String>) -> Option<Seq<char>> {
    match s {
        Some(x) => Some(x@),
        None => None,
    }
}

/// The value an optional reference points to.
pub open spec fn opt_outcome(o: Option<&SyncTrigger>) -> Option<SyncTrigger> {
    match o {
        Some(x) => Some(*x),
        None => None,
    }
}

fn push_line(lines: &mut Vec<String>, line: String)
    ensures
        views(final(lines)@) == views(old(lines)@).push(line@),
{
    let ghost before = views(lines@);
    lines.push(line);
    assert(views(lines@) =~= before.push(line@));
}

/// Assembles the report from its parts: the named language (if any), the
/// sorted remote sources, the cache directory, one status line per
/// language, and what became of the download request (asked for only when
/// there are remote sources).
pub fn sync_report(
    target: Option<&String>,
    remote: &Vec<(String, String)>,
    cache_dir: &str,
    statuses: &Vec<String>,
    outcome: Option<&SyncTrigger>,
) -> (r: CommandOutput)
    ensures
        whole_text_output(
            r,
            join(
                report_lines(
                    opt_view(target),
                    pair_views(remote@),
                    cache_dir@,
                    views(statuses@),
                    opt_outcome(outcome),
                ),
                "\n"@,
            ),
            report_label(opt_view(target)),
        ),
{
    proof {
        reveal_strlit("");
    }
    let ghost t = opt_view(target);
    let ghost rv = pair_views(remote@);
    let mut lines: Vec<String> = Vec::new();
    let first = match target {
        Some(l) => {
            let mut h = String::from_str("i18n Sync Status \u{2014} [");
            h.append(l.as_str());
            h.append("]");
            h
        },
        None => String::from_str("i18n Sync Status"),
    };
    push_line(&mut lines, first);
    push_line(&mut lines, repeat_char('\u{2500}', 48));
    push_line(&mut lines, String::new());
    assert(views(lines@) =~= header_lines(t));
    let ghost after_header = views(lines@);
    if remote.len() == 0 {
        push_line(&mut lines, String::from_str("Remote sources: none configured"));
        push_line(
            &mut lines,
            String::from_str("  Tip: add \"remoteSources\" to .i18n-viewer.json to enable remote fetching."),
        );
        assert(views(lines@) =~= after_header + remote_lines(rv));
    } else {
        let mut l = String::from_str("Remote sources (");
        push_decimal(&mut l, remote.len());
        l.append(" configured):");
        push_line(&mut lines, l);
        let ghost after_title = views(lines@);
        let mut i: usize = 0;
        while i < remote.len()
            invariant
                i <= remote.len(),
                rv == pair_views(remote@),
                views(lines@) == after_title + rv.take(i as int).map_values(
                    |p: (Seq<char>, Seq<char>)| remote_line(p),
                ),
            decreases remote.len() - i,
        {
            let mut line = String::from_str("  [");
            line.append(remote[i].0.as_str());
            line.append("]  ");
            line.append(remote[i].1.as_str());
            push_line(&mut lines, line);
            assert(rv.take(i + 1).map_values(|p: (Seq<char>, Seq<char>)| remote_line(p)) =~= rv.take(
                i as int,
            ).map_values(|p: (Seq<char>, Seq<char>)| remote_line(p)).push(line@));
            i = i + 1;
        }
        assert(rv.take(i as int) =~= rv);
        assert(views(lines@) =~= after_header + remote_lines(rv));
    }
    push_line(&mut lines, String::new());
    let mut cache_title = String::from_str("Cache status  (");
    cache_title.append(cache_dir);
    cache_title.append("/:)");
    push_line(&mut lines, cache_title);
    push_line(&mut lines, repeat_char('\u{2500}', 32));
    let ghost before_status = views(lines@);
    assert(before_status =~= header_lines(t) + remote_lines(rv) + seq![Seq::<char>::empty()] + cache_head(
        cache_dir@,
    ));
    let mut i: usize = 0;
    while i < statuses.len()
        invariant
            i <= statuses.len(),
            views(lines@) == before_status + views(statuses@).take(i as int),
        decreases statuses.len() - i,
    {
        push_line(&mut lines, statuses[i].clone());
        assert(views(statuses@).take(i + 1) =~= views(statuses@).take(i as int).push(statuses@[i as int]@));
        i = i + 1;
    }
    assert(views(statuses@).take(i as int) =~= views(statuses@));
    push_line(&mut lines, String::new());
    let ghost before_sync = views(lines@);
    if remote.len() == 0 {
        push_line(
            &mut lines,
            String::from_str("Nothing to sync \u{2014} no remote sources are configured in .i18n-viewer.json."),
        );
    } else {
        match outcome {
            Some(SyncTrigger::Written) => {
                let mut names: Vec<String> = Vec::new();
                match target {
                    Some(l) => {
                        names.push(l.clone());
                        assert(views(names@) =~= seq![l@]);
                    },
                    None => {
                        let mut k: usize = 0;
                        while k < remote.len()
                            invariant
                                k <= remote.len(),
                                rv == pair_views(remote@),
                                views(names@) == firsts(rv).take(k as int),
                            decreases remote.len() - k,
                        {
                            push_line(&mut names, remote[k].0.clone());
                            assert(firsts(rv).take(k + 1) =~= firsts(rv).take(k as int).push(remote@[k as int].0@));
                            k = k + 1;
                        }
                        assert(firsts(rv).take(k as int) =~= firsts(rv));
                    },
                }
                let joined = join_strings(&names, ", ");
                let mut l = String::from_str("\u{27f3}  Sync triggered for: ");
                l.append(joined.as_str());
                push_line(&mut lines, l);
                push_line(
                    &mut lines,
                    String::from_str("   The LSP server will download and cache the packs within a second."),
                );
            },
            Some(SyncTrigger::Failed(e)) => {
                let mut l = String::from_str("\u{2717}  Could not write sync request: ");
                l.append(e.as_str());
                push_line(&mut lines, l);
                push_line(
                    &mut lines,
                    String::from_str("   Try hovering over any i18n key to trigger a lazy re-fetch."),
                );
            },
            _ => {
                push_line(&mut lines, String::new());
                push_line(
                    &mut lines,
                    String::from_str(
                        "\u{26a0}  The i18n LSP server has not started yet (open a supported source file first).",
                    ),
                );
                push_line(
                    &mut lines,
                    String::from_str("   Once the server is running, re-run /i18n-sync to trigger a download."),
                );
            },
        }
    }
    assert(views(lines@) =~= before_sync + sync_lines(t, rv, opt_outcome(outcome)));
    assert(views(lines@) =~= report_lines(t, rv, cache_dir@, views(statuses@), opt_outcome(outcome)));
    let text = join_strings(&lines, "\n");
    let label = match target {
        Some(l) => {
            let mut s = String::from_str("i18n sync [");
            s.append(l.as_str());
            s.append("]");
            s
        },
        None => String::from_str("i18n sync status"),
    };
    whole_text(text, label)
}


/// Whether `n` is the key count that the cache text `text` gives: the
/// number of leaf keys when it parses, 0 when it does not.
pub open spec fn count_fits(text: Seq<char>, n: usize) -> bool {
    ||| (exists|e: String| #[trigger] parse_gives(text, Err(e))) && n == 0
    ||| exists|d: JsonValue| #[trigger] parse_gives(text, Ok(d)) && n == keys_of(d, Seq::empty()).len()
}

/// Whether `status` is what the reads can show of language `lang`.
pub open spec fn status_fits<R>(read: &R, config: Config, lang: Seq<char>, has_remote: bool, status: CacheStatus) -> bool
    where
        R: Fn(&String) -> Option<String>,
{
    let cache = cache_file(config.cache_dir@, lang);
    let templates = views(config.local_paths@);
    match status {
        CacheStatus::Cached(n) => exists|content: String|
            #[trigger] read_gives(read, cache, Some(content)) && count_fits(content@, n),
        CacheStatus::FetchPending => read_gives(read, cache, None) && has_remote,
        CacheStatus::LocalFile => read_gives(read, cache, None) && !has_remote && exists|i: int, content: String|
            0 <= i < templates.len() && #[trigger] read_gives(read, resolve_path(templates[i], lang), Some(content)),
        CacheStatus::Missing => read_gives(read, cache, None) && !has_remote && forall|i: int|
            0 <= i < templates.len() ==> #[trigger] read_gives(read, resolve_path(templates[i], lang), None),
    }
}

/// `line` reports on language `lang` as the reads can show it.
pub open spec fn lang_reported<R>(
    read: &R,
    config: Config,
    remote: Seq<(Seq<char>, Seq<char>)>,
    lang: Seq<char>,
    line: Seq<char>,
) -> bool
    where
        R: Fn(&String) -> Option<String>,
{
    exists|status: CacheStatus|
        #[trigger] status_fits(read, config, lang, firsts(remote).contains(lang), status)
        && line == status_line(lang, cache_file(config.cache_dir@, lang), status, firsts(remote).contains(lang))
}

/// Whether `remote` names a source for `lang`.
fn has_source(remote: &Vec<(String, String)>, lang: &str) -> (r: bool)
    ensures
        r == firsts(pair_views(remote@)).contains(lang@),
{
    let mut i: usize = 0;
    while i < remote.len()
        invariant
            i <= remote.len(),
            forall|k: int| 0 <= k < i ==> remote@[k].0@ != lang@,
        decreases remote.len() - i,
    {
        if str_eq(remote[i].0.as_str(), lang) {
            assert(firsts(pair_views(remote@))[i as int] == lang@);
            return true;
        }
        i = i + 1;
    }
    assert forall|k: int| 0 <= k < firsts(pair_views(remote@)).len() implies firsts(pair_views(remote@))[k] != lang@ by {
        assert(firsts(pair_views(remote@))[k] == remote@[k].0@);
    }
    false
}

/// Looks at the cache and the project files for language `lang` and
/// builds its report line.
pub fn check_language<R>(read: &R, lang: &String, config: &Config, remote: &Vec<(String, String)>) -> (r: String)
    where
        R: Fn(&String) -> Option<String>,
    requires
        forall|p: &String| #[trigger] read.requires((p,)),
    ensures
        lang_reported(read, *config, pair_views(remote@), lang@, r@),
{
    let ghost has = firsts(pair_views(remote@)).contains(lang@);
    let mut cache_path = String::from_str(config.cache_dir.as_str());
    cache_path.append("/");
    cache_path.append(lang.as_str());
    cache_path.append(".json");
    let has_remote = has_source(remote, lang.as_str());
    let outcome = read(&cache_path);
    assert(read.ensures((&cache_path,), outcome));
    let status = match outcome {
        Some(content) => {
            assert(read_gives(read, cache_path@, Some(content)));
            let parsed = parse_json(content.as_str());
            let n: usize = match parsed {
                Ok(json) => {
                    assert(parse_gives(content@, Ok(json)));
                    let mut keys: Vec<String> = Vec::new();
                    collect_keys(&json, "", &mut keys);
                    proof {
                        reveal_strlit("");
                        assert(views(keys@).len() == keys@.len());
                        assert(Seq::<Seq<char>>::empty() + keys_of(json, ""@) =~= keys_of(json, ""@));
                        assert(views(Seq::<String>::empty()) =~= Seq::<Seq<char>>::empty());
                        assert(""@ =~= Seq::<char>::empty());
                    }
                    keys.len()
                },
                Err(e) => {
                    assert(parse_gives(content@, Err(e)));
                    0
                },
            };
            assert(count_fits(content@, n));
            assert(cache_path@ == cache_file(config.cache_dir@, lang@));
            assert(status_fits(read, *config, lang@, has, CacheStatus::Cached(n)));
            CacheStatus::Cached(n)
        },
        None => {
            assert(read_gives(read, cache_path@, None));
            assert(cache_path@ == cache_file(config.cache_dir@, lang@));
            if has_remote {
                CacheStatus::FetchPending
            } else {
                let candidates = resolve_paths(lang.as_str(), config.local_paths.as_slice());
                let mut found = false;
                let mut i: usize = 0;
                while i < candidates.len() && !found
                    invariant
                        forall|p: &String| #[trigger] read.requires((p,)),
                        i <= candidates.len(),
                        candidates@.len() == config.local_paths@.len(),
                        forall|k: int| 0 <= k < candidates@.len() ==> #[trigger] candidates@[k]@ == resolve_path(
                            config.local_paths@[k]@,
                            lang@,
                        ),
                        !found ==> forall|k: int| 0 <= k < i ==> #[trigger] read_gives(read, candidates@[k]@, None),
                        found ==> exists|k: int, content: String|
                            0 <= k < candidates@.len() && #[trigger] read_gives(read, candidates@[k]@, Some(content)),
                    decreases candidates.len() - i,
                {
                    let candidate = &candidates[i];
                    let got = read(candidate);
                    assert(read.ensures((candidate,), got));
                    match got {
                        Some(content) => {
                            assert(read_gives(read, candidates@[i as int]@, Some(content)));
                            found = true;
                        },
                        None => {
                            assert(read_gives(read, candidates@[i as int]@, None));
                        },
                    }
                    i = i + 1;
                }
                if found {
                    proof {
                        let (k, content) = choose|k: int, content: String|
                            0 <= k < candidates@.len() && #[trigger] read_gives(read, candidates@[k]@, Some(content));
                        assert(views(config.local_paths@)[k] == config.local_paths@[k]@);
                        assert(read_gives(read, resolve_path(views(config.local_paths@)[k], lang@), Some(content)));
                    }
                    assert(status_fits(read, *config, lang@, has, CacheStatus::LocalFile));
                    CacheStatus::LocalFile
                } else {
                    proof {
                        assert forall|k: int| 0 <= k < views(config.local_paths@).len() implies #[trigger] read_gives(
                            read,
                            resolve_path(views(config.local_paths@)[k], lang@),
                            None,
                        ) by {
                            assert(views(config.local_paths@)[k] == config.local_paths@[k]@);
                            assert(read_gives(read, candidates@[k]@, None));
                        }
                    }
                    assert(status_fits(read, *config, lang@, has, CacheStatus::Missing));
                    CacheStatus::Missing
                }
            }
        },
    };
    assert(status_fits(read, *config, lang@, has, status));
    let line = make_status_line(lang.as_str(), cache_path.as_str(), &status, has_remote);
    assert(lang_reported(read, *config, pair_views(remote@), lang@, line@));
    line
}


/// The language named by the command's arguments, if any.
pub open spec fn target_of(args: Seq<String>) -> Option<Seq<char>> {
    if args.len() > 0 {
        Some(args[0]@)
    } else {
        None
    }
}

/// `cfg` is what reading and parsing the configuration file for the
/// report can give: the parsed document, or an empty object when the file
/// (read as empty text when it cannot be read) is not valid JSON.
pub open spec fn sync_config_read<R>(read: &R, cfg: JsonValue) -> bool
    where
        R: Fn(&String) -> Option<String>,
{
    exists|text: String|
        #[trigger] config_text(read, text) && (parse_gives(text@, Ok(cfg)) || (
        (exists|e: String| #[trigger] parse_gives(text@, Err(e))) && is_empty_object(cfg)))
}

/// `v` is an object without members.
pub open spec fn is_empty_object(v: JsonValue) -> bool {
    v matches JsonValue::Object(entries) && entries@.len() == 0
}

/// The languages to download, given the named language `target` and the
/// sorted remote sources: none when no remote source is configured, else
/// the named language, or every language with a remote source.
pub open spec fn sync_request(target: Option<Seq<char>>, remote: Seq<(Seq<char>, Seq<char>)>) -> Option<Seq<Seq<char>>> {
    if remote.len() == 0 {
        None
    } else {
        Some(langs_to_sync(target, remote))
    }
}

/// The names an optional list holds.
pub open spec fn opt_names(names: Option<Vec<String>>) -> Option<Seq<Seq<char>>> {
    match names {
        Some(v) => Some(views(v@)),
        None => None,
    }
}

/// The text an optional string holds.
pub open spec fn opt_text(s: Option<String>) -> Option<Seq<char>> {
    match s {
        Some(x) => Some(x@),
        None => None,
    }
}

/// The languages the report is on: the named one, or all known ones.
pub open spec fn langs_to_check(target: Option<Seq<char>>, default_lang: Seq<char>, cfg: JsonValue, remote: Seq<(Seq<char>, Seq<char>)>) -> Seq<Seq<char>> {
    match target {
        Some(l) => seq![l],
        None => report_langs(default_lang, cfg, remote),
    }
}

/// What `/i18n-sync` has found before the download is asked for: the
/// named language, the remote sources sorted by language, the cache
/// directory, one report line per language, and the languages to download
/// (`None`: no download is to be asked for).
pub struct SyncPlan {
    pub target: Option<String>,
    pub remote: Vec<(String, String)>,
    pub cache_dir: String,
    pub statuses: Vec<String>,
    pub request: Option<Vec<String>>,
}

/// `plan` is what `/i18n-sync` finds for the named language `target` (or
/// for every known one): `config` and `cfg` are what reading the
/// configuration could give, `remote` its remote sources sorted by
/// language, with one report line per language as the reads can show it,
/// and a download asked for exactly when a remote source is configured.
pub open spec fn planned<R>(
    plan: SyncPlan,
    read: &R,
    target: Option<Seq<char>>,
    config: Config,
    config_doc: Option<JsonValue>,
    cfg: JsonValue,
    remote: Seq<(Seq<char>, Seq<char>)>,
) -> bool
    where
        R: Fn(&String) -> Option<String>,
{
    let langs = langs_to_check(target, config.default_lang@, cfg, remote);
    let statuses = views(plan.statuses@);
    &&& config_from(config, config_doc)
    &&& config_doc_read(read, config_doc)
    &&& sync_config_read(read, cfg)
    &&& sorted_by_first(remote)
    &&& (forall|k: Seq<char>| #[trigger] with_first(remote, k) == with_first(remote_entries(cfg), k))
    &&& opt_text(plan.target) == target
    &&& pair_views(plan.remote@) == remote
    &&& plan.cache_dir@ == config.cache_dir@
    &&& statuses.len() == langs.len()
    &&& forall|i: int| 0 <= i < langs.len() ==> #[trigger] lang_reported(read, config, remote, langs[i], statuses[i])
    &&& opt_names(plan.request) == sync_request(target, remote)
}

/// `/i18n-sync [lang]`, first step: finds, for the named language or for
/// every known one, whether its translations are cached, pending download
/// or available in the project, and which languages the language server is
/// to download. `worktree` reads a file of the open project (`None` when no
/// project is open). The caller asks for the download, if any, and hands
/// what became of it to `SyncPlan::report`.
pub fn run_i18n_sync<R>(args: Vec<String>, worktree: Option<&R>) -> (r: Result<SyncPlan, String>)
    where
        R: Fn(&String) -> Option<String>,
    requires
        worktree matches Some(read) ==> forall|p: &String| #[trigger] read.requires((p,)),
    ensures
        worktree is None ==> (r matches Err(e) && e@ == no_workspace_text()),
        worktree is Some ==> (r matches Ok(plan) && worktree matches Some(read) && exists|
            config: Config,
            config_doc: Option<JsonValue>,
            cfg: JsonValue,
            remote: Seq<(Seq<char>, Seq<char>)>,
        | #[trigger] planned(plan, read, target_of(args@), config, config_doc, cfg, remote)),
{
    let read = match worktree {
        Some(read) => read,
        None => {
            return Err(no_workspace_message());
        },
    };
    let (config, config_doc) = read_config(read);
    let cfg_path = String::from_str(".i18n-viewer.json");
    let cfg_read = read(&cfg_path);
    assert(read.ensures((&cfg_path,), cfg_read));
    let cfg_raw = match cfg_read {
        Some(t) => {
            assert(read_gives(read, config_file(), Some(t)));
            t
        },
        None => {
            assert(read_gives(read, config_file(), None));
            String::new()
        },
    };
    assert(config_text(read, cfg_raw));
    let parsed = parse_json(cfg_raw.as_str());
    let cfg_json = match parsed {
        Ok(v) => {
            assert(parse_gives(cfg_raw@, Ok(v)));
            v
        },
        Err(e) => {
            assert(parse_gives(cfg_raw@, Err(e)));
            JsonValue::Object(Vec::new())
        },
    };
    assert(sync_config_read(read, cfg_json));
    let remote = remote_sources(&cfg_json);
    let ghost rv = pair_views(remote@);
    let all_langs = languages_to_report(&config.default_lang, &cfg_json, &remote);
    let target: Option<&String> = if args.len() > 0 {
        Some(&args[0])
    } else {
        None
    };
    let ghost t = target_of(args@);
    let ghost langs = langs_to_check(t, config.default_lang@, cfg_json, rv);
    let mut statuses: Vec<String> = Vec::new();
    match target {
        Some(lang) => {
            let line = check_language(read, lang, &config, &remote);
            statuses.push(line);
            assert(langs =~= seq![lang@]);
            assert(views(statuses@)[0] == line@);
        },
        None => {
            let mut i: usize = 0;
            while i < all_langs.len()
                invariant
                    forall|p: &String| #[trigger] read.requires((p,)),
                    i <= all_langs.len(),
                    statuses@.len() == i,
                    views(all_langs@) == langs,
                    rv == pair_views(remote@),
                    forall|k: int| 0 <= k < i ==> #[trigger] lang_reported(
                        read,
                        config,
                        rv,
                        langs[k],
                        views(statuses@)[k],
                    ),
                decreases all_langs.len() - i,
            {
                let line = check_language(read, &all_langs[i], &config, &remote);
                let ghost before = statuses@;
                statuses.push(line);
                assert forall|k: int| 0 <= k < i + 1 implies #[trigger] lang_reported(
                    read,
                    config,
                    rv,
                    langs[k],
                    views(statuses@)[k],
                ) by {
                    assert(views(statuses@)[k] == statuses@[k]@);
                    if k < i {
                        assert(statuses@[k] == before[k]);
                        assert(views(before)[k] == before[k]@);
                    } else {
                        assert(langs[k] == all_langs@[k]@);
                    }
                }
                i = i + 1;
            }
        },
    }
    let request: Option<Vec<String>> = if remote.len() == 0 {
        None
    } else {
        let mut names: Vec<String> = Vec::new();
        match target {
            Some(lang) => {
                names.push(lang.clone());
                assert(views(names@) =~= langs_to_sync(t, rv));
            },
            None => {
                let mut k: usize = 0;
                while k < remote.len()
                    invariant
                        k <= remote.len(),
                        rv == pair_views(remote@),
                        views(names@) == firsts(rv).take(k as int),
                    decreases remote.len() - k,
                {
                    push_line(&mut names, remote[k].0.clone());
                    assert(firsts(rv).take(k + 1) =~= firsts(rv).take(k as int).push(remote@[k as int].0@));
                    k = k + 1;
                }
                assert(firsts(rv).take(k as int) =~= firsts(rv));
            },
        }
        Some(names)
    };
    let target: Option<String> = match target {
        Some(lang) => Some(lang.clone()),
        None => None,
    };
    let cache_dir = config.cache_dir.clone();
    let plan = SyncPlan { target, remote, cache_dir, statuses, request };
    assert(planned(plan, read, t, config, config_doc, cfg_json, rv));
    Ok(plan)
}

impl SyncPlan {
    /// `/i18n-sync [lang]`, last step: the report, given what became of the
    /// download (`None` exactly when none was to be asked for).
    pub fn report(&self, outcome: Option<SyncTrigger>) -> (r: CommandOutput)
        requires
            self.request is Some <==> outcome is Some,
        ensures
            whole_text_output(
                r,
                join(
                    report_lines(
                        opt_text(self.target),
                        pair_views(self.remote@),
                        self.cache_dir@,
                        views(self.statuses@),
                        outcome,
                    ),
                    "\n"@,
                ),
                report_label(opt_text(self.target)),
            ),
    {
        let target = self.target.as_ref();
        let done = outcome.as_ref();
        assert(opt_view(target) == opt_text(self.target));
        assert(opt_outcome(done) == outcome);
        sync_report(target, &self.remote, self.cache_dir.as_str(), &self.statuses, done)
    }
}

/// With no language named, `/i18n-sync` reports first on the configured
/// default language (the `defaultLang` setting of the configuration file,
/// `en` without one): the list of languages starts with it, and the first
/// status line of the report is about it. A named language is the only
/// one reported on.
pub proof fn law_sync_reports_default_language_first<R>(
    plan: SyncPlan,
    read: &R,
    config: Config,
    config_doc: Option<JsonValue>,
    cfg: JsonValue,
    remote: Seq<(Seq<char>, Seq<char>)>,
    named: Seq<char>,
)
    where
        R: Fn(&String) -> Option<String>,
    ensures
        langs_to_check(None, config.default_lang@, cfg, remote).len() > 0,
        langs_to_check(None, config.default_lang@, cfg, remote)[0] == config.default_lang@,
        langs_to_check(Some(named), config.default_lang@, cfg, remote) == seq![named],
        planned(plan, read, None, config, config_doc, cfg, remote) ==> {
            &&& config.default_lang@ == setting(config_doc, "defaultLang"@, "en"@)
            &&& views(plan.statuses@).len() > 0
            &&& lang_reported(read, config, remote, config.default_lang@, views(plan.statuses@)[0])
        },
{
    reveal_strlit("en");
    let first = seq![config.default_lang@];
    lemma_add_new(first, listed_languages(cfg));
    let mid = add_new(first, listed_languages(cfg));
    lemma_add_new(mid, firsts(remote));
    assert(mid[0] == first[0]);
    assert(report_langs(config.default_lang@, cfg, remote)[0] == mid[0]);
}

} // verus!
