//! Translation files: where they are looked for, how a key is resolved in
//! one, and how a value is rendered as text.

use vstd::prelude::*;

use crate::json::{deref, entries_get, member, member_names, unique_names, unique_members, JsonValue};
use crate::config::Config;
use crate::text::{lemma_split_concat, lemma_split_without_sep, decimal, join, join_strings, push_char, push_decimal, replace_all, replace_all_str, split_on, split_str, views};

verus! {

/// The placeholder that a path template holds for the language code.
pub open spec fn lang_placeholder() -> Seq<char> {
    "{lang}"@
}

/// The path that `template` names for language `lang`.
pub open spec fn resolve_path(template: Seq<char>, lang: Seq<char>) -> Seq<char> {
    replace_all(template, lang_placeholder(), lang)
}

/// Replaces `{lang}` in each template with the language code.
pub fn resolve_paths(lang: &str, templates: &[String]) -> (r: Vec<String>)
    ensures
        r@.len() == templates@.len(),
        forall|i: int| 0 <= i < r@.len() ==> #[trigger] r@[i]@ == resolve_path(templates@[i]@, lang@),
{
    let mut out: Vec<String> = Vec::new();
    let mut i: usize = 0;
    assert(lang_placeholder().len() == 6) by {
        reveal_strlit("{lang}");
    }
    while i < templates.len()
        invariant
            i <= templates@.len(),
            out@.len() == i,
            lang_placeholder().len() == 6,
            forall|j: int| 0 <= j < i ==> #[trigger] out@[j]@ == resolve_path(templates@[j]@, lang@),
        decreases templates@.len() - i,
    {
        let p = replace_all_str(templates[i].as_str(), "{lang}", lang);
        out.push(p);
        i = i + 1;
    }
    out
}

/// The key of member `k` under the path `prefix` (`k` itself at the root).
pub open spec fn member_key(prefix: Seq<char>, k: Seq<char>) -> Seq<char> {
    if prefix.len() == 0 {
        k
    } else {
        prefix + seq!['.'] + k
    }
}

/// The key of array element `i` under the path `prefix`: `prefix[i]`.
pub open spec fn index_key(prefix: Seq<char>, i: nat) -> Seq<char> {
    prefix + seq!['['] + decimal(i) + seq![']']
}

/// The text shown for a value that is neither an object nor an array.
pub open spec fn scalar_text(v: JsonValue) -> Seq<char> {
    match v {
        JsonValue::Null => "(null)"@,
        JsonValue::Bool(b) => if b { "true"@ } else { "false"@ },
        JsonValue::Number(n) => n@,
        JsonValue::String(s) => s@,
        _ => Seq::empty(),
    }
}

/// The line shown for a leaf: `prefix: text`, or the text alone at the root.
pub open spec fn leaf_line(prefix: Seq<char>, text: Seq<char>) -> Seq<char> {
    if prefix.len() == 0 {
        text
    } else {
        prefix + ": "@ + text
    }
}

/// The `key: value` lines of `v` below `prefix`, object members in the
/// order `v` holds them (for a parsed document, sorted by name).
pub open spec fn lines_of(v: JsonValue, prefix: Seq<char>) -> Seq<Seq<char>>
    decreases v,
{
    match v {
        JsonValue::Object(entries) => member_lines(entries@, prefix),
        JsonValue::Array(items) => element_lines(items@, prefix, 0),
        _ => seq![leaf_line(prefix, scalar_text(v))],
    }
}

/// The lines of the members `entries` of an object at `prefix`.
pub open spec fn member_lines(entries: Seq<(String, JsonValue)>, prefix: Seq<char>) -> Seq<Seq<char>>
    decreases entries,
{
    if entries.len() == 0 {
        Seq::empty()
    } else {
        lines_of(entries[0].1, member_key(prefix, entries[0].0@))
            + member_lines(entries.subrange(1, entries.len() as int), prefix)
    }
}

/// The lines of the elements `items` of an array at `prefix`, the first of
/// them having index `start`.
pub open spec fn element_lines(items: Seq<JsonValue>, prefix: Seq<char>, start: nat) -> Seq<Seq<char>>
    decreases items,
{
    if items.len() == 0 {
        Seq::empty()
    } else {
        lines_of(items[0], index_key(prefix, start))
            + element_lines(items.subrange(1, items.len() as int), prefix, start + 1)
    }
}


/// The dot-notation keys of the leaves of `v` below `prefix`, object
/// members in the order `v` holds them (for a parsed document, sorted by
/// name); a leaf at an empty path has no key.
pub open spec fn keys_of(v: JsonValue, prefix: Seq<char>) -> Seq<Seq<char>>
    decreases v,
{
    match v {
        JsonValue::Object(entries) => member_keys(entries@, prefix),
        JsonValue::Array(items) => element_keys(items@, prefix, 0),
        _ => if prefix.len() == 0 { Seq::empty() } else { seq![prefix] },
    }
}

/// The leaf keys of the members `entries` of an object at `prefix`.
pub open spec fn member_keys(entries: Seq<(String, JsonValue)>, prefix: Seq<char>) -> Seq<Seq<char>>
    decreases entries,
{
    if entries.len() == 0 {
        Seq::empty()
    } else {
        keys_of(entries[0].1, member_key(prefix, entries[0].0@))
            + member_keys(entries.subrange(1, entries.len() as int), prefix)
    }
}

/// The leaf keys of the elements `items` of an array at `prefix`, the first
/// of them having index `start`.
pub open spec fn element_keys(items: Seq<JsonValue>, prefix: Seq<char>, start: nat) -> Seq<Seq<char>>
    decreases items,
{
    if items.len() == 0 {
        Seq::empty()
    } else {
        keys_of(items[0], index_key(prefix, start))
            + element_keys(items.subrange(1, items.len() as int), prefix, start + 1)
    }
}

/// Builds the key of member `k` under `prefix`.
fn make_member_key(prefix: &str, k: &str) -> (r: String)
    ensures
        r@ == member_key(prefix@, k@),
{
    if prefix.is_empty() {
        String::from_str(k)
    } else {
        let mut r = String::from_str(prefix);
        push_char(&mut r, '.');
        r.append(k);
        r
    }
}

/// Builds the key of array element `i` under `prefix`.
fn make_index_key(prefix: &str, i: usize) -> (r: String)
    ensures
        r@ == index_key(prefix@, i as nat),
{
    let mut r = String::from_str(prefix);
    push_char(&mut r, '[');
    push_decimal(&mut r, i);
    push_char(&mut r, ']');
    r
}

/// Builds the text of a value that is neither an object nor an array.
fn make_scalar_text(v: &JsonValue) -> (r: String)
    requires
        !v.is_container(),
    ensures
        r@ == scalar_text(*v),
{
    match v {
        JsonValue::Null => String::from_str("(null)"),
        JsonValue::Bool(b) => if *b { String::from_str("true") } else { String::from_str("false") },
        JsonValue::Number(n) => n.clone(),
        JsonValue::String(s) => s.clone(),
        _ => String::new(),
    }
}

proof fn lemma_views_push(s: Seq<String>, x: String)
    ensures
        views(s.push(x)) == views(s).push(x@),
{
    assert(views(s.push(x)) =~= views(s).push(x@));
}

/// Walks `value` and appends its flat `key: value` lines to `lines`;
/// `prefix` is the dot path accumulated so far (empty at the root).
pub fn collect_lines(value: &JsonValue, prefix: &str, lines: &mut Vec<String>)
    ensures
        views(final(lines)@) == views(old(lines)@) + lines_of(*value, prefix@),
    decreases value,
{
    match value {
        JsonValue::Object(map) => {
            let ghost start = views(lines@);
            let ghost all = map@;
            let mut i: usize = 0;
            assert(all.subrange(0, all.len() as int) =~= all);
            assert(start + member_lines(all, prefix@) =~= views(lines@) + member_lines(all, prefix@));
            while i < map.len()
                invariant
                    all == map@,
                    *value == JsonValue::Object(*map),
                    i <= map.len(),
                    start + lines_of(*value, prefix@) == views(lines@) + member_lines(
                        all.subrange(i as int, all.len() as int),
                        prefix@,
                    ),
                decreases map.len() - i,
            {
                let ghost rest = all.subrange(i as int, all.len() as int);
                assert(rest.subrange(1, rest.len() as int) =~= all.subrange(i + 1, all.len() as int));
                assert(rest[0] == map@[i as int]);
                let key = make_member_key(prefix, map[i].0.as_str());
                let ghost before = views(lines@);
                collect_lines(&map[i].1, key.as_str(), lines);
                assert(before + member_lines(rest, prefix@) =~= views(lines@) + member_lines(
                    all.subrange(i + 1, all.len() as int),
                    prefix@,
                ));
                i = i + 1;
            }
            assert(all.subrange(i as int, all.len() as int) =~= Seq::<(String, JsonValue)>::empty());
            assert(views(lines@) + Seq::<Seq<char>>::empty() =~= views(lines@));
        },
        JsonValue::Array(arr) => {
            let ghost start = views(lines@);
            let ghost all = arr@;
            let mut i: usize = 0;
            assert(all.subrange(0, all.len() as int) =~= all);
            assert(start + element_lines(all, prefix@, 0) =~= views(lines@) + element_lines(all, prefix@, 0));
            while i < arr.len()
                invariant
                    all == arr@,
                    *value == JsonValue::Array(*arr),
                    i <= arr.len(),
                    start + lines_of(*value, prefix@) == views(lines@) + element_lines(
                        all.subrange(i as int, all.len() as int),
                        prefix@,
                        i as nat,
                    ),
                decreases arr.len() - i,
            {
                let ghost rest = all.subrange(i as int, all.len() as int);
                assert(rest.subrange(1, rest.len() as int) =~= all.subrange(i + 1, all.len() as int));
                assert(rest[0] == arr@[i as int]);
                let key = make_index_key(prefix, i);
                let ghost before = views(lines@);
                collect_lines(&arr[i], key.as_str(), lines);
                assert(before + element_lines(rest, prefix@, i as nat) =~= views(lines@) + element_lines(
                    all.subrange(i + 1, all.len() as int),
                    prefix@,
                    (i + 1) as nat,
                ));
                i = i + 1;
            }
            assert(all.subrange(i as int, all.len() as int) =~= Seq::<JsonValue>::empty());
            assert(views(lines@) + Seq::<Seq<char>>::empty() =~= views(lines@));
        },
        _ => {
            let text = make_scalar_text(value);
            let line = if prefix.is_empty() {
                text
            } else {
                let mut l = String::from_str(prefix);
                l.append(": ");
                l.append(text.as_str());
                l
            };
            proof {
                lemma_views_push(lines@, line);
            }
            lines.push(line);
        },
    }
}

/// Walks `value` and appends the dot-notation key of every leaf to `keys`;
/// `prefix` is the path accumulated so far (empty at the root).
pub fn collect_keys(value: &JsonValue, prefix: &str, keys: &mut Vec<String>)
    ensures
        views(final(keys)@) == views(old(keys)@) + keys_of(*value, prefix@),
    decreases value,
{
    match value {
        JsonValue::Object(map) => {
            let ghost start = views(keys@);
            let ghost all = map@;
            let mut i: usize = 0;
            assert(all.subrange(0, all.len() as int) =~= all);
            assert(start + member_keys(all, prefix@) =~= views(keys@) + member_keys(all, prefix@));
            while i < map.len()
                invariant
                    all == map@,
                    *value == JsonValue::Object(*map),
                    i <= map.len(),
                    start + keys_of(*value, prefix@) == views(keys@) + member_keys(
                        all.subrange(i as int, all.len() as int),
                        prefix@,
                    ),
                decreases map.len() - i,
            {
                let ghost rest = all.subrange(i as int, all.len() as int);
                assert(rest.subrange(1, rest.len() as int) =~= all.subrange(i + 1, all.len() as int));
                assert(rest[0] == map@[i as int]);
                let key = make_member_key(prefix, map[i].0.as_str());
                let ghost before = views(keys@);
                collect_keys(&map[i].1, key.as_str(), keys);
                assert(before + member_keys(rest, prefix@) =~= views(keys@) + member_keys(
                    all.subrange(i + 1, all.len() as int),
                    prefix@,
                ));
                i = i + 1;
            }
            assert(all.subrange(i as int, all.len() as int) =~= Seq::<(String, JsonValue)>::empty());
            assert(views(keys@) + Seq::<Seq<char>>::empty() =~= views(keys@));
        },
        JsonValue::Array(arr) => {
            let ghost start = views(keys@);
            let ghost all = arr@;
            let mut i: usize = 0;
            assert(all.subrange(0, all.len() as int) =~= all);
            assert(start + element_keys(all, prefix@, 0) =~= views(keys@) + element_keys(all, prefix@, 0));
            while i < arr.len()
                invariant
                    all == arr@,
                    *value == JsonValue::Array(*arr),
                    i <= arr.len(),
                    start + keys_of(*value, prefix@) == views(keys@) + element_keys(
                        all.subrange(i as int, all.len() as int),
                        prefix@,
                        i as nat,
                    ),
                decreases arr.len() - i,
            {
                let ghost rest = all.subrange(i as int, all.len() as int);
                assert(rest.subrange(1, rest.len() as int) =~= all.subrange(i + 1, all.len() as int));
                assert(rest[0] == arr@[i as int]);
                let key = make_index_key(prefix, i);
                let ghost before = views(keys@);
                collect_keys(&arr[i], key.as_str(), keys);
                assert(before + element_keys(rest, prefix@, i as nat) =~= views(keys@) + element_keys(
                    all.subrange(i + 1, all.len() as int),
                    prefix@,
                    (i + 1) as nat,
                ));
                i = i + 1;
            }
            assert(all.subrange(i as int, all.len() as int) =~= Seq::<JsonValue>::empty());
            assert(views(keys@) + Seq::<Seq<char>>::empty() =~= views(keys@));
        },
        _ => {
            if !prefix.is_empty() {
                let key = String::from_str(prefix);
                proof {
                    lemma_views_push(keys@, key);
                }
                keys.push(key);
            } else {
                assert(views(keys@) + Seq::<Seq<char>>::empty() =~= views(keys@));
            }
        },
    }
}

/// Renders a value as text: a scalar as itself, an object or an array as
/// its flat `key: value` lines separated by newlines.
pub fn format_value(value: &JsonValue) -> (r: String)
    ensures
        r@ == crate::text::join(lines_of(*value, Seq::empty()), "\n"@),
{
    let mut lines: Vec<String> = Vec::new();
    collect_lines(value, "", &mut lines);
    assert(""@ =~= Seq::<char>::empty()) by {
        reveal_strlit("");
    }
    assert(views(Seq::<String>::empty()) =~= Seq::<Seq<char>>::empty());
    assert(Seq::<Seq<char>>::empty() + lines_of(*value, Seq::empty()) =~= lines_of(*value, Seq::empty()));
    crate::text::join_strings(&lines, "\n")
}


/// The value reached from `v` by following the member names `parts` in turn.
pub open spec fn lookup_path(v: JsonValue, parts: Seq<Seq<char>>) -> Option<JsonValue>
    decreases parts.len(),
{
    if parts.len() == 0 {
        Some(v)
    } else {
        match member(v, parts[0]) {
            Some(child) => lookup_path(child, parts.skip(1)),
            None => None,
        }
    }
}

/// The value at the dot-separated path `key` in `v`.
pub open spec fn lookup(v: JsonValue, key: Seq<char>) -> Option<JsonValue> {
    lookup_path(v, split_on(key, '.'))
}

/// Navigates `value` by the dot-separated path `key`: `None` as soon as a
/// segment is missing or the current node is not an object.
pub fn lookup_key<'a>(value: &'a JsonValue, key: &str) -> (r: Option<&'a JsonValue>)
    ensures
        deref(r) == lookup(*value, key@),
{
    let parts = split_str(key, '.');
    let mut cur: &JsonValue = value;
    let mut i: usize = 0;
    assert(views(parts@).skip(0) =~= views(parts@));
    while i < parts.len()
        invariant
            i <= parts.len(),
            views(parts@) == split_on(key@, '.'),
            lookup(*value, key@) == lookup_path(*cur, views(parts@).skip(i as int)),
        decreases parts.len() - i,
    {
        let ghost rest = views(parts@).skip(i as int);
        assert(rest[0] == parts@[i as int]@);
        assert(rest.skip(1) =~= views(parts@).skip(i + 1));
        match cur.get(parts[i].as_str()) {
            Some(child) => {
                cur = child;
            },
            None => {
                return None;
            },
        }
        i = i + 1;
    }
    assert(views(parts@).skip(i as int) =~= Seq::<Seq<char>>::empty());
    Some(cur)
}

/// The value a translation key resolves to in `data`, trying in turn: the
/// member named `prefix + raw`, the dot path `prefix + raw` (both only when
/// `prefix` is not empty), the member named `raw`, the dot path `raw`.
pub open spec fn resolve(data: JsonValue, raw: Seq<char>, prefix: Seq<char>) -> Option<JsonValue> {
    let full = prefix + raw;
    if prefix.len() > 0 && member(data, full) is Some {
        member(data, full)
    } else if prefix.len() > 0 && lookup(data, full) is Some {
        lookup(data, full)
    } else if member(data, raw) is Some {
        member(data, raw)
    } else {
        lookup(data, raw)
    }
}

/// Resolves a translation key, supporting flat and nested files and an
/// optional key prefix; see [`resolve`] for the order of the lookups.
pub fn resolve_translation<'a>(data: &'a JsonValue, raw_key: &str, key_prefix: &str) -> (r: Option<&'a JsonValue>)
    ensures
        deref(r) == resolve(*data, raw_key@, key_prefix@),
{
    if !key_prefix.is_empty() {
        let mut full_key = String::from_str(key_prefix);
        full_key.append(raw_key);
        if let Some(v) = data.get(full_key.as_str()) {
            return Some(v);
        }
        if let Some(v) = lookup_key(data, full_key.as_str()) {
            return Some(v);
        }
    }
    if let Some(v) = data.get(raw_key) {
        return Some(v);
    }
    lookup_key(data, raw_key)
}


/// Whether reading the file at `path` can give `out`: `Some` with the file's
/// text, `None` when it cannot be read.
pub open spec fn read_gives<R: Fn(&String) -> Option<String>>(read: &R, path: Seq<char>, out: Option<String>) -> bool {
    exists|p: String| p@ == path && #[trigger] read.ensures((&p,), out)
}

/// Tries each candidate path in order with `read`; returns the first
/// readable content with the path it came from, or every path tried.
pub fn find_translation_file<R: Fn(&String) -> Option<String>>(read: &R, candidates: &[String]) -> (r: Result<(String, String), Vec<String>>)
    requires
        forall|p: &String| #[trigger] read.requires((p,)),
    ensures
        match r {
            Ok((content, path)) => exists|i: int|
                0 <= i < candidates@.len()
                && path@ == candidates@[i]@
                && read_gives(read, path@, Some(content))
                && (forall|j: int| 0 <= j < i ==> read_gives(read, #[trigger] candidates@[j]@, None)),
            Err(tried) => views(tried@) == views(candidates@)
                && (forall|j: int| 0 <= j < candidates@.len() ==> read_gives(read, #[trigger] candidates@[j]@, None)),
        },
{
    let mut tried: Vec<String> = Vec::new();
    let mut i: usize = 0;
    while i < candidates.len()
        invariant
            forall|p: &String| #[trigger] read.requires((p,)),
            i <= candidates@.len(),
            views(tried@) == views(candidates@).take(i as int),
            forall|j: int| 0 <= j < i ==> read_gives(read, #[trigger] candidates@[j]@, None),
        decreases candidates@.len() - i,
    {
        let path = &candidates[i];
        let outcome = read(path);
        assert(read.ensures((path,), outcome));
        match outcome {
            Some(content) => {
                assert(read_gives(read, candidates@[i as int]@, Some(content)));
                return Ok((content, path.clone()));
            },
            None => {
                assert(read_gives(read, candidates@[i as int]@, None));
                let ghost before = views(tried@);
                let copy = path.clone();
                assert(copy@ == candidates@[i as int]@);
                tried.push(copy);
                assert(views(tried@) =~= before.push(copy@));
                assert(views(tried@) =~= views(candidates@).take(i + 1));
            },
        }
        i = i + 1;
    }
    assert(views(candidates@).take(i as int) =~= views(candidates@));
    Err(tried)
}


/// The file that the language server caches the translations for `lang` in.
pub open spec fn cache_file(cache_dir: Seq<char>, lang: Seq<char>) -> Seq<char> {
    cache_dir + "/"@ + lang + ".json"@
}

/// The paths searched for the translations of `lang`, in order: the cache
/// file first, then each configured template with the language filled in.
pub open spec fn search_order(config: Config, lang: Seq<char>) -> Seq<Seq<char>> {
    seq![cache_file(config.cache_dir@, lang)] + views(config.local_paths@).map_values(
        |t: Seq<char>| resolve_path(t, lang),
    )
}

/// One line of the list of searched paths.
pub open spec fn bullet(p: Seq<char>) -> Seq<char> {
    "  \u{2022} "@ + p
}

/// The error given when no file could be read for `lang`, listing `tried`.
pub open spec fn not_found_message(lang: Seq<char>, tried: Seq<Seq<char>>) -> Seq<char> {
    "No translation file found for language '"@ + lang + "'.\n\nSearched:\n"@ + join(
        tried.map_values(|p: Seq<char>| bullet(p)),
        "\n"@,
    )
}

/// Builds the error listing every path in `tried`.
fn make_not_found_message(lang: &str, tried: &Vec<String>) -> (r: String)
    ensures
        r@ == not_found_message(lang@, views(tried@)),
{
    let mut items: Vec<String> = Vec::new();
    let mut i: usize = 0;
    while i < tried.len()
        invariant
            i <= tried.len(),
            views(items@) == views(tried@).take(i as int).map_values(|p: Seq<char>| bullet(p)),
        decreases tried.len() - i,
    {
        let mut line = String::from_str("  \u{2022} ");
        line.append(tried[i].as_str());
        let ghost before = views(items@);
        items.push(line);
        assert(views(items@) =~= before.push(line@));
        assert(views(items@) =~= views(tried@).take(i + 1).map_values(|p: Seq<char>| bullet(p)));
        i = i + 1;
    }
    assert(views(tried@).take(i as int) =~= views(tried@));
    let list = join_strings(&items, "\n");
    let mut msg = String::from_str("No translation file found for language '");
    msg.append(lang);
    msg.append("'.\n\nSearched:\n");
    msg.append(list.as_str());
    msg
}

/// Reading the paths of `order` in turn can give nothing until `path`,
/// which gives `content`.
pub open spec fn found_first<R: Fn(&String) -> Option<String>>(read: &R, order: Seq<Seq<char>>, path: Seq<char>, content: String) -> bool {
    exists|i: int|
        0 <= i < order.len() && path == order[i] && #[trigger] read_gives(read, order[i], Some(content))
        && (forall|j: int| 0 <= j < i ==> read_gives(read, #[trigger] order[j], None))
}

/// Reading any path of `order` can give nothing.
pub open spec fn none_found<R: Fn(&String) -> Option<String>>(read: &R, order: Seq<Seq<char>>) -> bool {
    forall|j: int| 0 <= j < order.len() ==> read_gives(read, #[trigger] order[j], None)
}

/// Finds the translation file for `lang`: the language server's cache
/// first, then the configured templates. Returns the file's text and path,
/// or an error that lists every path tried.
pub fn find_translation<R: Fn(&String) -> Option<String>>(read: &R, lang: &str, config: &Config) -> (r: Result<(String, String), String>)
    requires
        forall|p: &String| #[trigger] read.requires((p,)),
    ensures
        match r {
            Ok((content, path)) => found_first(read, search_order(*config, lang@), path@, content),
            Err(msg) => msg@ == not_found_message(lang@, search_order(*config, lang@))
                && none_found(read, search_order(*config, lang@)),
        },
{
    let ghost order = search_order(*config, lang@);
    let mut cache_path = String::from_str(config.cache_dir.as_str());
    cache_path.append("/");
    cache_path.append(lang);
    cache_path.append(".json");
    assert(cache_path@ == order[0]);
    let outcome = read(&cache_path);
    assert(read.ensures((&cache_path,), outcome));
    match outcome {
        Some(content) => {
            assert(read_gives(read, cache_path@, Some(content)));
            return Ok((content, cache_path));
        },
        None => {
            assert(read_gives(read, order[0], None));
        },
    }
    let local = resolve_paths(lang, config.local_paths.as_slice());
    assert(views(local@) =~= views(config.local_paths@).map_values(|t: Seq<char>| resolve_path(t, lang@)));
    assert(order =~= seq![cache_path@] + views(local@));
    match find_translation_file(read, local.as_slice()) {
        Ok((content, path)) => {
            let ghost k = choose|k: int|
                0 <= k < local@.len()
                && path@ == local@[k]@
                && read_gives(read, path@, Some(content))
                && (forall|j: int| 0 <= j < k ==> read_gives(read, #[trigger] local@[j]@, None));
            assert(order[k + 1] == local@[k]@);
            assert forall|j: int| 0 <= j < k + 1 implies read_gives(read, #[trigger] order[j], None) by {
                if j > 0 {
                    assert(order[j] == local@[j - 1]@);
                }
            }
            Ok((content, path))
        },
        Err(local_tried) => {
            let mut tried: Vec<String> = Vec::new();
            tried.push(cache_path);
            let mut j: usize = 0;
            while j < local_tried.len()
                invariant
                    j <= local_tried.len(),
                    views(tried@) == seq![order[0]] + views(local_tried@).take(j as int),
                decreases local_tried.len() - j,
            {
                let ghost before = views(tried@);
                let copy = local_tried[j].clone();
                tried.push(copy);
                assert(views(tried@) =~= before.push(copy@));
                assert(views(tried@) =~= seq![order[0]] + views(local_tried@).take(j + 1));
                j = j + 1;
            }
            assert(views(local_tried@).take(j as int) =~= views(local_tried@));
            assert(views(tried@) =~= order);
            assert forall|j: int| 0 <= j < order.len() implies read_gives(read, #[trigger] order[j], None) by {
                if j > 0 {
                    assert(order[j] == local@[j - 1]@);
                }
            }
            Err(make_not_found_message(lang, &tried))
        },
    }
}


/// A member name that a dot path can reach: non-empty and free of `.`.
pub open spec fn plain_name(n: Seq<char>) -> bool {
    n.len() > 0 && !n.contains('.')
}

/// The shape of a translation tree in nested form: objects and scalars
/// only (no arrays), every member name non-empty and free of `.`.
pub open spec fn plain_shape(v: JsonValue) -> bool
    decreases v,
{
    match v {
        JsonValue::Object(entries) => plain_shape_members(entries@),
        JsonValue::Array(_) => false,
        _ => true,
    }
}

/// The members `entries` of an object of [`plain_shape`].
pub open spec fn plain_shape_members(entries: Seq<(String, JsonValue)>) -> bool
    decreases entries,
{
    entries.len() == 0 || {
        let rest = entries.subrange(1, entries.len() as int);
        &&& plain_name(entries[0].0@)
        &&& plain_shape(entries[0].1)
        &&& plain_shape_members(rest)
    }
}

/// A translation tree in nested form, as a JSON parser yields it: no name
/// twice in one object, and of [`plain_shape`].
pub open spec fn plain_tree(v: JsonValue) -> bool {
    unique_names(v) && plain_shape(v)
}

/// [`plain_tree`] taken object by object.
pub open spec fn nested_tree(v: JsonValue) -> bool
    decreases v,
{
    match v {
        JsonValue::Object(entries) => nested_members(entries@),
        JsonValue::Array(_) => false,
        _ => true,
    }
}

/// The members `entries` of an object of a [`nested_tree`].
pub open spec fn nested_members(entries: Seq<(String, JsonValue)>) -> bool
    decreases entries,
{
    entries.len() == 0 || {
        let rest = entries.subrange(1, entries.len() as int);
        &&& plain_name(entries[0].0@)
        &&& !member_names(rest).contains(entries[0].0@)
        &&& nested_tree(entries[0].1)
        &&& nested_members(rest)
    }
}

/// Following `parts` from `v` ends at a string, number, boolean or null.
pub open spec fn reaches_leaf(v: JsonValue, parts: Seq<Seq<char>>) -> bool {
    lookup_path(v, parts) matches Some(leaf) && !leaf.is_container()
}

/// The member path that a key below `prefix` starts with.
pub open spec fn path_prefix(prefix: Seq<char>) -> Seq<Seq<char>> {
    if prefix.len() == 0 {
        Seq::empty()
    } else {
        split_on(prefix, '.')
    }
}

proof fn lemma_plain_tree_nested(v: JsonValue)
    requires
        unique_names(v),
        plain_shape(v),
    ensures
        nested_tree(v),
    decreases v, 0int,
{
    if let JsonValue::Object(entries) = v {
        lemma_plain_members_nested(entries@);
    }
}

proof fn lemma_plain_members_nested(entries: Seq<(String, JsonValue)>)
    requires
        unique_members(entries),
        plain_shape_members(entries),
    ensures
        nested_members(entries),
    decreases entries, 1int,
{
    if entries.len() > 0 {
        lemma_plain_tree_nested(entries[0].1);
        lemma_plain_members_nested(entries.subrange(1, entries.len() as int));
    }
}

proof fn lemma_nested_members_facts(entries: Seq<(String, JsonValue)>, i: int)
    requires
        nested_members(entries),
        0 <= i < entries.len(),
    ensures
        plain_name(entries[i].0@),
        nested_tree(entries[i].1),
        entries_get(entries, entries[i].0@) == Some(entries[i].1),
    decreases entries.len(),
{
    let rest = entries.subrange(1, entries.len() as int);
    if i > 0 {
        lemma_nested_members_facts(rest, i - 1);
        assert(rest[i - 1] == entries[i]);
        if entries[0].0@ == entries[i].0@ {
            assert(member_names(rest)[i - 1] == entries[i].0@);
            assert(member_names(rest).contains(entries[0].0@));
        }
    }
}

proof fn lemma_entries_get_names(entries: Seq<(String, JsonValue)>, key: Seq<char>)
    requires
        entries_get(entries, key) is Some,
    ensures
        member_names(entries).contains(key),
    decreases entries.len(),
{
    if entries[0].0@ == key {
        assert(member_names(entries)[0] == key);
    } else {
        let rest = entries.subrange(1, entries.len() as int);
        lemma_entries_get_names(rest, key);
        let k = choose|k: int| 0 <= k < member_names(rest).len() && member_names(rest)[k] == key;
        assert(member_names(entries)[k + 1] == key);
    }
}

proof fn lemma_path_prefix_member(prefix: Seq<char>, n: Seq<char>)
    requires
        plain_name(n),
    ensures
        path_prefix(member_key(prefix, n)) == path_prefix(prefix).push(n),
{
    lemma_split_without_sep(n, '.', Seq::empty());
    assert(Seq::<char>::empty() + n =~= n);
    if prefix.len() == 0 {
        assert(member_key(prefix, n) == n);
    } else {
        lemma_split_concat(prefix, '.', n, Seq::empty());
        assert(split_on(n, '.') == seq![n]);
        assert(split_on(prefix, '.') + seq![n] =~= split_on(prefix, '.').push(n));
    }
}

proof fn lemma_lookup_path_concat(v: JsonValue, a: Seq<Seq<char>>, b: Seq<Seq<char>>)
    requires
        lookup_path(v, a) is Some,
    ensures
        lookup_path(v, a + b) == lookup_path(lookup_path(v, a)->Some_0, b),
    decreases a.len(),
{
    if a.len() > 0 {
        assert((a + b)[0] == a[0]);
        assert((a + b).skip(1) =~= a.skip(1) + b);
        lemma_lookup_path_concat(member(v, a[0])->Some_0, a.skip(1), b);
    } else {
        assert(a + b =~= b);
    }
}

/// Every key listed below `prefix` in a plain tree is `prefix`'s path
/// followed by a path that leads from `v` to a leaf.
proof fn lemma_keys_lead_to_leaves(v: JsonValue, prefix: Seq<char>, j: int)
    requires
        nested_tree(v),
        0 <= j < keys_of(v, prefix).len(),
    ensures
        exists|q: Seq<Seq<char>>|
            split_on(#[trigger] keys_of(v, prefix)[j], '.') == path_prefix(prefix) + q && reaches_leaf(v, q),
    decreases v, 0int,
{
    match v {
        JsonValue::Object(entries) => {
            lemma_member_keys_lead_to_leaves(entries@, prefix, j);
            let (i, q) = choose|i: int, q: Seq<Seq<char>>|
                0 <= i < entries@.len()
                && split_on(#[trigger] member_keys(entries@, prefix)[j], '.') == path_prefix(prefix).push(entries@[i].0@) + q
                && reaches_leaf(entries@[i].1, q);
            lemma_nested_members_facts(entries@, i);
            let full = seq![entries@[i].0@] + q;
            assert(path_prefix(prefix).push(entries@[i].0@) + q =~= path_prefix(prefix) + full);
            assert(full[0] == entries@[i].0@);
            assert(full.skip(1) =~= q);
            assert(lookup_path(v, full) == lookup_path(entries@[i].1, q));
            assert(reaches_leaf(v, full));
        },
        JsonValue::Array(_) => {},
        _ => {
            let q = Seq::<Seq<char>>::empty();
            assert(keys_of(v, prefix)[j] == prefix);
            assert(path_prefix(prefix) + q =~= split_on(prefix, '.'));
            assert(reaches_leaf(v, q));
        },
    }
}

/// Member form of [`lemma_keys_lead_to_leaves`].
proof fn lemma_member_keys_lead_to_leaves(entries: Seq<(String, JsonValue)>, prefix: Seq<char>, j: int)
    requires
        nested_members(entries),
        0 <= j < member_keys(entries, prefix).len(),
    ensures
        exists|i: int, q: Seq<Seq<char>>|
            0 <= i < entries.len()
            && split_on(#[trigger] member_keys(entries, prefix)[j], '.') == path_prefix(prefix).push(entries[i].0@) + q
            && reaches_leaf(entries[i].1, q),
    decreases entries, 1int,
{
    let rest = entries.subrange(1, entries.len() as int);
    let n = entries[0].0@;
    let first = keys_of(entries[0].1, member_key(prefix, n));
    assert(member_keys(entries, prefix) == first + member_keys(rest, prefix));
    if j < first.len() {
        lemma_keys_lead_to_leaves(entries[0].1, member_key(prefix, n), j);
        let q = choose|q: Seq<Seq<char>>|
            split_on(#[trigger] keys_of(entries[0].1, member_key(prefix, n))[j], '.') == path_prefix(member_key(prefix, n)) + q
            && reaches_leaf(entries[0].1, q);
        lemma_path_prefix_member(prefix, n);
        assert(member_keys(entries, prefix)[j] == first[j]);
        assert(split_on(member_keys(entries, prefix)[j], '.') == path_prefix(prefix).push(entries[0].0@) + q);
    } else {
        lemma_member_keys_lead_to_leaves(rest, prefix, j - first.len());
        let (i, q) = choose|i: int, q: Seq<Seq<char>>|
            0 <= i < rest.len()
            && split_on(#[trigger] member_keys(rest, prefix)[j - first.len()], '.') == path_prefix(prefix).push(rest[i].0@) + q
            && reaches_leaf(rest[i].1, q);
        assert(member_keys(entries, prefix)[j] == member_keys(rest, prefix)[j - first.len()]);
        assert(rest[i] == entries[i + 1]);
    }
}

/// Every key that `collect_keys` lists for a translation tree in nested
/// form leads, by its dot path (`lookup_key`) and by resolution without a
/// key prefix, to a string, number, boolean or null of that tree: the keys
/// that `/i18n-keys` shows can be looked up with `/i18n`.
pub proof fn law_listed_keys_resolve(data: JsonValue, j: int)
    requires
        plain_tree(data),
        0 <= j < keys_of(data, Seq::empty()).len(),
    ensures
        lookup(data, keys_of(data, Seq::empty())[j]) matches Some(leaf) && !leaf.is_container(),
        resolve(data, keys_of(data, Seq::empty())[j], Seq::empty()) matches Some(leaf) && !leaf.is_container(),
{
    let k = keys_of(data, Seq::empty())[j];
    lemma_plain_tree_nested(data);
    lemma_keys_lead_to_leaves(data, Seq::empty(), j);
    let q = choose|q: Seq<Seq<char>>|
        split_on(#[trigger] keys_of(data, Seq::empty())[j], '.') == path_prefix(Seq::empty()) + q && reaches_leaf(data, q);
    assert(path_prefix(Seq::<char>::empty()) + q =~= q);
    assert(lookup(data, k) == lookup_path(data, q));
    assert(Seq::<char>::empty() + k =~= k);
    if member(data, k) is Some {
        let entries = data->Object_0@;
        lemma_entries_get_names(entries, k);
        let i = choose|i: int| 0 <= i < member_names(entries).len() && member_names(entries)[i] == k;
        lemma_nested_members_facts(entries, i);
        assert(member_names(entries)[i] == entries[i].0@);
        lemma_split_without_sep(k, '.', Seq::empty());
        assert(Seq::<char>::empty() + k =~= k);
        let one = seq![k];
        assert(one.skip(1) =~= Seq::<Seq<char>>::empty());
        let c = member(data, k)->Some_0;
        assert(lookup_path(c, Seq::<Seq<char>>::empty()) == Some(c));
        assert(one[0] == k);
        assert(lookup_path(data, one) == member(data, k));
    }
}


/// The number of strings, numbers, booleans and nulls in `v`.
pub open spec fn leaf_count(v: JsonValue) -> nat
    decreases v,
{
    match v {
        JsonValue::Object(entries) => members_leaf_count(entries@),
        JsonValue::Array(items) => items_leaf_count(items@),
        _ => 1,
    }
}

/// The number of leaves in the values of the members `entries`.
pub open spec fn members_leaf_count(entries: Seq<(String, JsonValue)>) -> nat
    decreases entries,
{
    if entries.len() == 0 {
        0
    } else {
        leaf_count(entries[0].1) + members_leaf_count(entries.subrange(1, entries.len() as int))
    }
}

/// The number of leaves in the elements `items`.
pub open spec fn items_leaf_count(items: Seq<JsonValue>) -> nat
    decreases items,
{
    if items.len() == 0 {
        0
    } else {
        leaf_count(items[0]) + items_leaf_count(items.subrange(1, items.len() as int))
    }
}

/// Below a non-empty path, every leaf of `v` has one key.
pub proof fn lemma_keys_count(v: JsonValue, prefix: Seq<char>)
    requires
        prefix.len() > 0,
    ensures
        keys_of(v, prefix).len() == leaf_count(v),
    decreases v, 0int,
{
    match v {
        JsonValue::Object(entries) => lemma_member_keys_count(entries@, prefix),
        JsonValue::Array(items) => lemma_element_keys_count(items@, prefix, 0),
        _ => {},
    }
}

/// Member form of [`lemma_keys_count`]; at the root, member names are
/// to be non-empty.
pub proof fn lemma_member_keys_count(entries: Seq<(String, JsonValue)>, prefix: Seq<char>)
    requires
        prefix.len() > 0 || forall|i: int| 0 <= i < entries.len() ==> (#[trigger] entries[i]).0@.len() > 0,
    ensures
        member_keys(entries, prefix).len() == members_leaf_count(entries),
    decreases entries, 1int,
{
    if entries.len() > 0 {
        let rest = entries.subrange(1, entries.len() as int);
        assert(entries[0].0@.len() > 0 || prefix.len() > 0);
        lemma_keys_count(entries[0].1, member_key(prefix, entries[0].0@));
        assert forall|i: int| prefix.len() == 0 && 0 <= i < rest.len() implies (#[trigger] rest[i]).0@.len() > 0 by {
            assert(rest[i] == entries[i + 1]);
        }
        lemma_member_keys_count(rest, prefix);
    }
}

/// Element form of [`lemma_keys_count`].
pub proof fn lemma_element_keys_count(items: Seq<JsonValue>, prefix: Seq<char>, start: nat)
    ensures
        element_keys(items, prefix, start).len() == items_leaf_count(items),
    decreases items, 1int,
{
    if items.len() > 0 {
        lemma_keys_count(items[0], index_key(prefix, start));
        lemma_element_keys_count(items.subrange(1, items.len() as int), prefix, start + 1);
    }
}

proof fn lemma_no_duplicates_concat(a: Seq<Seq<char>>, b: Seq<Seq<char>>)
    requires
        a.no_duplicates(),
        b.no_duplicates(),
        forall|i: int, j: int| 0 <= i < a.len() && 0 <= j < b.len() ==> #[trigger] a[i] != #[trigger] b[j],
    ensures
        (a + b).no_duplicates(),
{
    assert forall|i: int, j: int| 0 <= i < (a + b).len() && 0 <= j < (a + b).len() && i != j
        implies (a + b)[i] != (a + b)[j] by {
        if i < a.len() && j >= a.len() {
            assert((a + b)[j] == b[j - a.len()]);
        } else if j < a.len() && i >= a.len() {
            assert((a + b)[i] == b[i - a.len()]);
        }
    }
}

/// In a tree taken object by object, the keys listed below `prefix` are
/// distinct.
proof fn lemma_keys_distinct(v: JsonValue, prefix: Seq<char>)
    requires
        nested_tree(v),
    ensures
        keys_of(v, prefix).no_duplicates(),
    decreases v, 0int,
{
    match v {
        JsonValue::Object(entries) => lemma_member_keys_distinct(entries@, prefix),
        _ => {},
    }
}

proof fn lemma_member_keys_distinct(entries: Seq<(String, JsonValue)>, prefix: Seq<char>)
    requires
        nested_members(entries),
    ensures
        member_keys(entries, prefix).no_duplicates(),
    decreases entries, 1int,
{
    if entries.len() > 0 {
        let rest = entries.subrange(1, entries.len() as int);
        let n = entries[0].0@;
        let mk = member_key(prefix, n);
        let first = keys_of(entries[0].1, mk);
        let later = member_keys(rest, prefix);
        lemma_keys_distinct(entries[0].1, mk);
        lemma_member_keys_distinct(rest, prefix);
        lemma_path_prefix_member(prefix, n);
        let pl: int = path_prefix(prefix).len() as int;
        assert forall|a: int, b: int| 0 <= a < first.len() && 0 <= b < later.len() implies #[trigger] first[a] != #[trigger] later[b] by {
            lemma_keys_lead_to_leaves(entries[0].1, mk, a);
            let q1 = choose|q: Seq<Seq<char>>|
                split_on(#[trigger] keys_of(entries[0].1, mk)[a], '.') == path_prefix(mk) + q && reaches_leaf(entries[0].1, q);
            lemma_member_keys_lead_to_leaves(rest, prefix, b);
            let (i, q2) = choose|i: int, q: Seq<Seq<char>>|
                0 <= i < rest.len()
                && split_on(#[trigger] member_keys(rest, prefix)[b], '.') == path_prefix(prefix).push(rest[i].0@) + q
                && reaches_leaf(rest[i].1, q);
            assert((path_prefix(prefix).push(n) + q1)[pl] == n);
            assert((path_prefix(prefix).push(rest[i].0@) + q2)[pl] == rest[i].0@);
            assert(member_names(rest)[i] == rest[i].0@);
            if first[a] == later[b] {
                assert(member_names(rest).contains(n));
            }
        }
        lemma_no_duplicates_concat(first, later);
    }
}

/// `/i18n-keys` lists the keys of a translation file: for a translation
/// tree in nested form whose root is an object, `collect_keys` lists each
/// key once, one key for each string, number, boolean or null of the tree.
pub proof fn law_listed_keys_distinct(data: JsonValue)
    requires
        plain_tree(data),
        data is Object,
    ensures
        keys_of(data, Seq::empty()).no_duplicates(),
        keys_of(data, Seq::empty()).len() == leaf_count(data),
{
    lemma_plain_tree_nested(data);
    lemma_keys_distinct(data, Seq::empty());
    let entries = data->Object_0@;
    assert forall|i: int| 0 <= i < entries.len() implies (#[trigger] entries[i]).0@.len() > 0 by {
        lemma_nested_members_facts(entries, i);
    }
    lemma_member_keys_count(entries, Seq::empty());
}

/// A string, number, boolean or null is rendered as its own text alone
/// ("scalars are returned as-is").
pub proof fn law_scalar_rendered_as_is(v: JsonValue)
    requires
        !v.is_container(),
    ensures
        join(lines_of(v, Seq::empty()), "\n"@) == scalar_text(v),
{
    assert(lines_of(v, Seq::empty()) == seq![scalar_text(v)]);
}

/// A template that does not hold `{lang}` names the same path for every
/// language.
pub proof fn law_template_without_placeholder(template: Seq<char>, lang: Seq<char>)
    requires
        forall|i: int| 0 <= i <= template.len() - lang_placeholder().len()
            ==> #[trigger] template.subrange(i, i + lang_placeholder().len()) != lang_placeholder(),
    ensures
        resolve_path(template, lang) == template,
{
    crate::text::lemma_replace_absent(template, lang_placeholder(), lang);
}


/// `line` begins with `key` followed by `": "`.
pub open spec fn line_of_key(line: Seq<char>, key: Seq<char>) -> bool {
    line.len() >= key.len() + 2 && line.subrange(0, key.len() + 2int) == key + ": "@
}

/// The lines `lines` are those of the keys `keys`, one for one, in order.
pub open spec fn lines_match_keys(lines: Seq<Seq<char>>, keys: Seq<Seq<char>>) -> bool {
    &&& lines.len() == keys.len()
    &&& forall|i: int| 0 <= i < lines.len() ==> line_of_key(#[trigger] lines[i], keys[i])
}

proof fn lemma_lines_match_concat(l1: Seq<Seq<char>>, k1: Seq<Seq<char>>, l2: Seq<Seq<char>>, k2: Seq<Seq<char>>)
    requires
        lines_match_keys(l1, k1),
        lines_match_keys(l2, k2),
    ensures
        lines_match_keys(l1 + l2, k1 + k2),
{
    assert forall|i: int| 0 <= i < (l1 + l2).len() implies line_of_key(#[trigger] (l1 + l2)[i], (k1 + k2)[i]) by {
        if i < l1.len() {
            assert((l1 + l2)[i] == l1[i] && (k1 + k2)[i] == k1[i]);
        } else {
            assert((l1 + l2)[i] == l2[i - l1.len()] && (k1 + k2)[i] == k2[i - k1.len()]);
        }
    }
}

/// Below a non-empty path, `v` is rendered as one line per leaf key that
/// `collect_keys` lists for it, in the same order, each line beginning with
/// its key and `": "`.
pub proof fn lemma_lines_match_keys(v: JsonValue, prefix: Seq<char>)
    requires
        prefix.len() > 0,
    ensures
        lines_match_keys(lines_of(v, prefix), keys_of(v, prefix)),
    decreases v, 0int, 0int,
{
    match v {
        JsonValue::Object(entries) => {
            lemma_member_lines_match_keys(entries@, prefix);
        },
        JsonValue::Array(items) => {
            lemma_element_lines_match_keys(items@, prefix, 0);
        },
        _ => {
            let line = leaf_line(prefix, scalar_text(v));
            reveal_strlit(": ");
            assert(line.subrange(0, prefix.len() + 2int) =~= prefix + ": "@);
            assert(line_of_key(line, prefix));
        },
    }
}

/// Member form of [`lemma_lines_match_keys`].
pub proof fn lemma_member_lines_match_keys(entries: Seq<(String, JsonValue)>, prefix: Seq<char>)
    requires
        prefix.len() > 0,
    ensures
        lines_match_keys(member_lines(entries, prefix), member_keys(entries, prefix)),
    decreases entries, 1int, 0int,
{
    if entries.len() > 0 {
        let rest = entries.subrange(1, entries.len() as int);
        let key = member_key(prefix, entries[0].0@);
        lemma_lines_match_keys(entries[0].1, key);
        lemma_member_lines_match_keys(rest, prefix);
        lemma_lines_match_concat(
            lines_of(entries[0].1, key),
            keys_of(entries[0].1, key),
            member_lines(rest, prefix),
            member_keys(rest, prefix),
        );
    }
}

/// Element form of [`lemma_lines_match_keys`].
pub proof fn lemma_element_lines_match_keys(items: Seq<JsonValue>, prefix: Seq<char>, start: nat)
    requires
        prefix.len() > 0,
    ensures
        lines_match_keys(element_lines(items, prefix, start), element_keys(items, prefix, start)),
    decreases items, 1int, 0int,
{
    if items.len() > 0 {
        let rest = items.subrange(1, items.len() as int);
        let key = index_key(prefix, start);
        lemma_lines_match_keys(items[0], key);
        lemma_element_lines_match_keys(rest, prefix, start + 1);
        lemma_lines_match_concat(
            lines_of(items[0], key),
            keys_of(items[0], key),
            element_lines(rest, prefix, start + 1),
            element_keys(rest, prefix, start + 1),
        );
    }
}

/// A namespace (an object whose member names are not empty, or an array)
/// is rendered as one line per leaf key that `collect_keys` lists for it,
/// in the same order, each line beginning with its key and `": "`.
pub proof fn law_namespace_lines_show_leaf_keys(v: JsonValue)
    requires
        v.is_container(),
        v matches JsonValue::Object(entries) ==> forall|i: int|
            0 <= i < entries@.len() ==> (#[trigger] entries@[i]).0@.len() > 0,
    ensures
        lines_match_keys(lines_of(v, Seq::empty()), keys_of(v, Seq::empty())),
{
    match v {
        JsonValue::Object(entries) => {
            lemma_root_members(entries@);
        },
        JsonValue::Array(items) => {
            lemma_root_elements(items@, 0);
        },
        _ => {},
    }
}

proof fn lemma_root_members(entries: Seq<(String, JsonValue)>)
    requires
        forall|i: int| 0 <= i < entries.len() ==> (#[trigger] entries[i]).0@.len() > 0,
    ensures
        lines_match_keys(member_lines(entries, Seq::empty()), member_keys(entries, Seq::empty())),
    decreases entries.len(),
{
    if entries.len() > 0 {
        let rest = entries.subrange(1, entries.len() as int);
        assert(entries[0].0@.len() > 0);
        let key = member_key(Seq::empty(), entries[0].0@);
        lemma_lines_match_keys(entries[0].1, key);
        assert forall|i: int| 0 <= i < rest.len() implies (#[trigger] rest[i]).0@.len() > 0 by {
            assert(rest[i] == entries[i + 1]);
        }
        lemma_root_members(rest);
        lemma_lines_match_concat(
            lines_of(entries[0].1, key),
            keys_of(entries[0].1, key),
            member_lines(rest, Seq::empty()),
            member_keys(rest, Seq::empty()),
        );
    }
}

proof fn lemma_root_elements(items: Seq<JsonValue>, start: nat)
    ensures
        lines_match_keys(element_lines(items, Seq::empty(), start), element_keys(items, Seq::empty(), start)),
    decreases items.len(),
{
    if items.len() > 0 {
        let rest = items.subrange(1, items.len() as int);
        let key = index_key(Seq::empty(), start);
        lemma_lines_match_keys(items[0], key);
        lemma_root_elements(rest, start + 1);
        lemma_lines_match_concat(
            lines_of(items[0], key),
            keys_of(items[0], key),
            element_lines(rest, Seq::empty(), start + 1),
            element_keys(rest, Seq::empty(), start + 1),
        );
    }
}

/// Resolution falls back, last of all, to the dot path of the key without
/// the prefix: where the prefixed member, the prefixed dot path and the
/// unprefixed member are all missing, the key resolves to whatever its own
/// dot path reaches, whatever the prefix.
pub proof fn law_resolve_falls_back_to_nested_key(data: JsonValue, raw: Seq<char>, prefix: Seq<char>)
    requires
        member(data, prefix + raw) is None,
        lookup(data, prefix + raw) is None,
        member(data, raw) is None,
    ensures
        resolve(data, raw, prefix) == lookup(data, raw),
{
}

/// A key fails to resolve only when every one of the four lookups misses,
/// and a key that resolves gives what one of them gives.
pub proof fn law_resolve_misses_only_when_all_miss(data: JsonValue, raw: Seq<char>, prefix: Seq<char>)
    ensures
        resolve(data, raw, prefix) is None <==> (
            (prefix.len() > 0 ==> member(data, prefix + raw) is None && lookup(data, prefix + raw) is None)
            && member(data, raw) is None && lookup(data, raw) is None),
        resolve(data, raw, prefix) is Some ==> (
            (prefix.len() > 0 && resolve(data, raw, prefix) == member(data, prefix + raw))
            || (prefix.len() > 0 && resolve(data, raw, prefix) == lookup(data, prefix + raw))
            || resolve(data, raw, prefix) == member(data, raw)
            || resolve(data, raw, prefix) == lookup(data, raw)),
        prefix.len() == 0 ==> resolve(data, raw, prefix) == (if member(data, raw) is Some {
            member(data, raw)
        } else {
            lookup(data, raw)
        }),
{
    assert(prefix.len() == 0 ==> prefix + raw =~= raw);
}

/// A string is shown as exactly its own characters: alone at the root, and
/// as `prefix: text` below a non-empty prefix; a number as its text, a
/// boolean as `true` or `false`, and null as `(null)`.
pub proof fn law_leaf_text_shown_whole(s: String, n: String, b: bool, prefix: Seq<char>)
    requires
        prefix.len() > 0,
    ensures
        lines_of(JsonValue::String(s), Seq::empty()) == seq![s@],
        join(lines_of(JsonValue::String(s), Seq::empty()), "\n"@) == s@,
        lines_of(JsonValue::String(s), prefix) == seq![prefix + ": "@ + s@],
        lines_of(JsonValue::Number(n), prefix) == seq![prefix + ": "@ + n@],
        lines_of(JsonValue::Bool(b), Seq::empty()) == seq![if b { "true"@ } else { "false"@ }],
        lines_of(JsonValue::Null, Seq::empty()) == seq!["(null)"@],
{
    assert(join(seq![s@], "\n"@) == s@);
}

/// Whatever the language, the language server's cache file is searched
/// first, then each configured template with the language filled in, in
/// the configured order.
pub proof fn law_cache_searched_first(config: Config, lang: Seq<char>)
    ensures
        search_order(config, lang).len() == config.local_paths@.len() + 1,
        search_order(config, lang)[0] == cache_file(config.cache_dir@, lang),
        forall|i: int| 0 <= i < config.local_paths@.len() ==>
            #[trigger] search_order(config, lang)[i + 1] == resolve_path(config.local_paths@[i]@, lang),
{
    assert forall|i: int| 0 <= i < config.local_paths@.len() implies
        #[trigger] search_order(config, lang)[i + 1] == resolve_path(config.local_paths@[i]@, lang) by {
        assert(views(config.local_paths@)[i] == config.local_paths@[i]@);
    }
}

/// The file found for a language is the cache file unless reading the
/// cache gave nothing: a project file is used only after the cache was
/// tried and could not be read.
pub proof fn law_project_file_only_after_cache<R: Fn(&String) -> Option<String>>(
    read: &R,
    config: Config,
    lang: Seq<char>,
    path: Seq<char>,
    content: String,
)
    requires
        found_first(read, search_order(config, lang), path, content),
    ensures
        path == cache_file(config.cache_dir@, lang) || read_gives(read, cache_file(config.cache_dir@, lang), None),
{
    let order = search_order(config, lang);
    let i = choose|i: int|
        0 <= i < order.len() && path == order[i] && #[trigger] read_gives(read, order[i], Some(content))
        && (forall|j: int| 0 <= j < i ==> read_gives(read, #[trigger] order[j], None));
    if i > 0 {
        assert(read_gives(read, order[0], None));
    }
}

} // verus!
