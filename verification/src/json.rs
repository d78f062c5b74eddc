//! A JSON document as the library reads it: the values that a translation
//! file or a configuration file holds, with object members in the order
//! the parser's map keeps them (sorted by name).

use vstd::prelude::*;
use zed_extension_api::serde_json;

verus! {

/// A JSON value. Numbers are kept as the text that a JSON serializer prints
/// for them; object members are kept in the order they are held in, which
/// for a parsed document is the parser's map order (sorted by name).
#[derive(Debug)]
pub enum JsonValue {
    Null,
    Bool(bool),
    Number(String),
    String(String),
    Array(Vec<JsonValue>),
    Object(Vec<(String, JsonValue)>),
}

/// The value of the first member named `key` among `entries`.
pub open spec fn entries_get(entries: Seq<(String, JsonValue)>, key: Seq<char>) -> Option<JsonValue>
    decreases entries.len(),
{
    if entries.len() == 0 {
        None
    } else if entries[0].0@ == key {
        Some(entries[0].1)
    } else {
        entries_get(entries.subrange(1, entries.len() as int), key)
    }
}

/// The member `key` of `v` when `v` is an object that has one, else `None`.
pub open spec fn member(v: JsonValue, key: Seq<char>) -> Option<JsonValue> {
    match v {
        JsonValue::Object(entries) => entries_get(entries@, key),
        _ => None,
    }
}

/// The value a returned reference points to.
pub open spec fn deref(r: Option<&JsonValue>) -> Option<JsonValue> {
    match r {
        Some(v) => Some(*v),
        None => None,
    }
}

/// The text of `v` when it is a string.
pub open spec fn string_of(v: Option<JsonValue>) -> Option<Seq<char>> {
    match v {
        Some(JsonValue::String(s)) => Some(s@),
        _ => None,
    }
}

impl JsonValue {
    /// Whether the value is an object or an array.
    pub open spec fn is_container(self) -> bool {
        self is Object || self is Array
    }

    /// The member named `key`, if `self` is an object that has one (the
    /// first such member, should several share the name).
    pub fn get(&self, key: &str) -> (r: Option<&JsonValue>)
        ensures
            deref(r) == member(*self, key@),
    {
        match self {
            JsonValue::Object(entries) => {
                let mut i: usize = 0;
                assert(entries@.subrange(0, entries.len() as int) =~= entries@);
                while i < entries.len()
                    invariant
                        i <= entries.len(),
                        member(*self, key@) == entries_get(entries@, key@),
                        entries_get(entries@, key@) == entries_get(
                            entries@.subrange(i as int, entries.len() as int),
                            key@,
                        ),
                    decreases entries.len() - i,
                {
                    let ghost rest = entries@.subrange(i as int, entries.len() as int);
                    assert(rest.subrange(1, rest.len() as int) =~= entries@.subrange(
                        i + 1,
                        entries.len() as int,
                    ));
                    assert(rest[0] == entries@[i as int]);
                    if str_eq(entries[i].0.as_str(), key) {
                        return Some(&entries[i].1);
                    }
                    i = i + 1;
                }
                None
            },
            _ => None,
        }
    }
}

/// Whether two strings hold the same characters.
pub fn str_eq(a: &str, b: &str) -> (r: bool)
    ensures
        r == (a@ == b@),
{
    let av = crate::text::chars_of(a);
    let bv = crate::text::chars_of(b);
    if av.len() != bv.len() {
        return false;
    }
    let mut i: usize = 0;
    while i < av.len()
        invariant
            av@ == a@,
            bv@ == b@,
            av.len() == bv.len(),
            i <= av.len(),
            forall|k: int| 0 <= k < i ==> av@[k] == bv@[k],
        decreases av.len() - i,
    {
        if av[i] != bv[i] {
            return false;
        }
        i = i + 1;
    }
    assert(a@ =~= b@);
    true
}

/// The names of the members `entries`.
pub open spec fn member_names(entries: Seq<(String, JsonValue)>) -> Seq<Seq<char>> {
    entries.map_values(|e: (String, JsonValue)| e.0@)
}

/// No object in `v`, at any depth, has two members of one name (as in
/// every document a JSON parser yields).
pub open spec fn unique_names(v: JsonValue) -> bool
    decreases v,
{
    match v {
        JsonValue::Object(entries) => unique_members(entries@),
        JsonValue::Array(items) => unique_items(items@),
        _ => true,
    }
}

/// The members `entries` have distinct names and values with
/// [`unique_names`].
pub open spec fn unique_members(entries: Seq<(String, JsonValue)>) -> bool
    decreases entries,
{
    entries.len() == 0 || {
        let rest = entries.subrange(1, entries.len() as int);
        &&& !member_names(rest).contains(entries[0].0@)
        &&& unique_names(entries[0].1)
        &&& unique_members(rest)
    }
}

/// The elements `items` have [`unique_names`].
pub open spec fn unique_items(items: Seq<JsonValue>) -> bool
    decreases items,
{
    items.len() == 0 || (unique_names(items[0]) && unique_items(items.subrange(1, items.len() as int)))
}

proof fn lemma_unique_items(items: Seq<JsonValue>)
    requires
        forall|i: int| 0 <= i < items.len() ==> unique_names(#[trigger] items[i]),
    ensures
        unique_items(items),
    decreases items.len(),
{
    if items.len() > 0 {
        let rest = items.subrange(1, items.len() as int);
        assert forall|i: int| 0 <= i < rest.len() implies unique_names(#[trigger] rest[i]) by {
            assert(rest[i] == items[i + 1]);
        }
        lemma_unique_items(rest);
    }
}

proof fn lemma_unique_members(entries: Seq<(String, JsonValue)>)
    requires
        forall|i: int| 0 <= i < entries.len() ==> unique_names(#[trigger] entries[i].1),
        forall|i: int, j: int| 0 <= i < j < entries.len() ==> #[trigger] entries[i].0@ != #[trigger] entries[j].0@,
    ensures
        unique_members(entries),
    decreases entries.len(),
{
    if entries.len() > 0 {
        let rest = entries.subrange(1, entries.len() as int);
        assert forall|i: int| 0 <= i < rest.len() implies unique_names(#[trigger] rest[i].1) by {
            assert(rest[i] == entries[i + 1]);
        }
        assert forall|i: int, j: int| 0 <= i < j < rest.len() implies #[trigger] rest[i].0@ != #[trigger] rest[j].0@ by {
            assert(rest[i] == entries[i + 1]);
            assert(rest[j] == entries[j + 1]);
        }
        lemma_unique_members(rest);
        if member_names(rest).contains(entries[0].0@) {
            let k = choose|k: int| 0 <= k < member_names(rest).len() && member_names(rest)[k] == entries[0].0@;
            assert(rest[k] == entries[k + 1]);
            assert(entries[0].0@ != entries[k + 1].0@);
        }
    }
}

/// A JSON value as a mathematical object: what a document says, apart
/// from how it is stored.
pub enum JsonData {
    Null,
    Bool(bool),
    Number(Seq<char>),
    Str(Seq<char>),
    Array(Seq<JsonData>),
    Object(Seq<(Seq<char>, JsonData)>),
}

impl JsonValue {
    /// The content of the value.
    pub open spec fn data(self) -> JsonData
        decreases self,
    {
        match self {
            JsonValue::Null => JsonData::Null,
            JsonValue::Bool(b) => JsonData::Bool(b),
            JsonValue::Number(n) => JsonData::Number(n@),
            JsonValue::String(s) => JsonData::Str(s@),
            JsonValue::Array(items) => JsonData::Array(items_data(items@)),
            JsonValue::Object(entries) => JsonData::Object(entries_data(entries@)),
        }
    }
}

/// The contents of the elements `items`.
pub open spec fn items_data(items: Seq<JsonValue>) -> Seq<JsonData>
    decreases items,
{
    if items.len() == 0 {
        Seq::empty()
    } else {
        seq![items[0].data()] + items_data(items.subrange(1, items.len() as int))
    }
}

/// The names and contents of the members `entries`.
pub open spec fn entries_data(entries: Seq<(String, JsonValue)>) -> Seq<(Seq<char>, JsonData)>
    decreases entries,
{
    if entries.len() == 0 {
        Seq::empty()
    } else {
        seq![(entries[0].0@, entries[0].1.data())] + entries_data(entries.subrange(1, entries.len() as int))
    }
}

/// `items_data` holds the content of each element, in order.
pub proof fn lemma_items_data(items: Seq<JsonValue>)
    ensures
        items_data(items).len() == items.len(),
        forall|i: int| 0 <= i < items.len() ==> #[trigger] items_data(items)[i] == items[i].data(),
    decreases items.len(),
{
    if items.len() > 0 {
        let rest = items.subrange(1, items.len() as int);
        lemma_items_data(rest);
        assert forall|i: int| 0 <= i < items.len() implies #[trigger] items_data(items)[i] == items[i].data() by {
            if i > 0 {
                assert(items_data(items)[i] == items_data(rest)[i - 1]);
                assert(rest[i - 1] == items[i]);
            }
        }
    }
}

/// `entries_data` holds the name and content of each member, in order.
pub proof fn lemma_entries_data(entries: Seq<(String, JsonValue)>)
    ensures
        entries_data(entries).len() == entries.len(),
        forall|i: int| 0 <= i < entries.len() ==> #[trigger] entries_data(entries)[i] == (entries[i].0@, entries[i].1.data()),
    decreases entries.len(),
{
    if entries.len() > 0 {
        let rest = entries.subrange(1, entries.len() as int);
        lemma_entries_data(rest);
        assert forall|i: int| 0 <= i < entries.len() implies #[trigger] entries_data(entries)[i] == (entries[i].0@, entries[i].1.data()) by {
            if i > 0 {
                assert(entries_data(entries)[i] == entries_data(rest)[i - 1]);
                assert(rest[i - 1] == entries[i]);
            }
        }
    }
}

#[verifier::external_type_specification]
#[verifier::external_body]
pub struct ExJsonDocument(serde_json::Value);

/// What `serde_json::from_str::<serde_json::Value>` makes of `text`:
/// the document, or `None` where `text` is not valid JSON.
pub uninterp spec fn parsed_json(text: Seq<char>) -> Option<JsonData>;

/// The message of the error that `serde_json::from_str` gives for `text`.
pub uninterp spec fn json_error_text(text: Seq<char>) -> Seq<char>;

/// What a parsed `serde_json::Value` holds, numbers taken as the text
/// serde_json prints for them.
pub uninterp spec fn document_data(v: serde_json::Value) -> JsonData;

/// A parsed `serde_json::Value` taken apart one level: its kind and its
/// immediate content, the elements and members still parsed values.
pub enum JsonNode {
    Null,
    Bool(bool),
    Number(String),
    String(String),
    Array(Vec<serde_json::Value>),
    Object(Vec<(String, serde_json::Value)>),
}

/// Parses `text` with `serde_json::from_str::<serde_json::Value>`. The
/// contract says that the result is what `parsed_json` names for `text`,
/// and that an error carries the message `json_error_text` names. (With
/// its default recursion limit the parser returns an error, rather than
/// failing, on too deeply nested input.)
#[verifier::external_body]
fn parse_document(text: &str) -> (r: Result<serde_json::Value, String>)
    ensures
        match r {
            Ok(v) => parsed_json(text@) == Some(document_data(v)),
            Err(e) => parsed_json(text@) is None && e@ == json_error_text(text@),
        },
{
    serde_json::from_str::<serde_json::Value>(text).map_err(|e| e.to_string())
}

/// Takes a `serde_json::Value` apart one level, one arm per variant: a
/// number as its `Display` text, an object's `Map` as its members in the
/// map's order. The contract says that this is what `document_data` holds
/// of the value, and that an object's member names are distinct (they are
/// the keys of a `serde_json::Map`).
#[verifier::external_body]
fn json_node(v: serde_json::Value) -> (r: JsonNode)
    ensures
        match r {
            JsonNode::Null => document_data(v) == JsonData::Null,
            JsonNode::Bool(b) => document_data(v) == JsonData::Bool(b),
            JsonNode::Number(n) => document_data(v) == JsonData::Number(n@),
            JsonNode::String(s) => document_data(v) == JsonData::Str(s@),
            JsonNode::Array(items) => document_data(v) matches JsonData::Array(xs) && xs.len() == items@.len()
                && forall|i: int| 0 <= i < xs.len() ==> #[trigger] xs[i] == document_data(items@[i]),
            JsonNode::Object(members) => document_data(v) matches JsonData::Object(xs) && xs.len() == members@.len()
                && (forall|i: int| 0 <= i < xs.len() ==> #[trigger] xs[i] == (members@[i].0@, document_data(members@[i].1)))
                && (forall|i: int, j: int| 0 <= i < j < members@.len() ==> #[trigger] members@[i].0@ != #[trigger] members@[j].0@),
        },
{
    match v {
        serde_json::Value::Null => JsonNode::Null,
        serde_json::Value::Bool(b) => JsonNode::Bool(b),
        serde_json::Value::Number(n) => JsonNode::Number(n.to_string()),
        serde_json::Value::String(s) => JsonNode::String(s),
        serde_json::Value::Array(items) => JsonNode::Array(items),
        serde_json::Value::Object(map) => JsonNode::Object(map.into_iter().collect()),
    }
}

/// Converts a parsed document into the library's representation.
fn from_document(v: serde_json::Value) -> (r: JsonValue)
    ensures
        r.data() == document_data(v),
        unique_names(r),
    decreases document_data(v),
{
    let ghost d = document_data(v);
    match json_node(v) {
        JsonNode::Null => JsonValue::Null,
        JsonNode::Bool(b) => JsonValue::Bool(b),
        JsonNode::Number(n) => JsonValue::Number(n),
        JsonNode::String(s) => JsonValue::String(s),
        JsonNode::Array(items) => {
            let ghost xs = d->Array_0;
            let ghost all = items@;
            let mut items = items;
            let mut rev: Vec<JsonValue> = Vec::new();
            while items.len() > 0
                invariant
                    d == document_data(v),
                    d == JsonData::Array(xs),
                    xs.len() == all.len(),
                    forall|i: int| 0 <= i < xs.len() ==> #[trigger] xs[i] == document_data(all[i]),
                    items@ == all.subrange(0, items@.len() as int),
                    items@.len() + rev@.len() == all.len(),
                    forall|j: int| 0 <= j < rev@.len() ==> (#[trigger] rev@[j]).data() == xs[all.len() - 1 - j],
                    forall|j: int| 0 <= j < rev@.len() ==> unique_names(#[trigger] rev@[j]),
                decreases items@.len(),
            {
                let ghost k = items@.len() - 1;
                let x = items.pop().unwrap();
                assert(x == all[k]);
                assert(decreases_to!(d => d->Array_0));
                assert(decreases_to!(d->Array_0 => d->Array_0[k]));
                assert(decreases_to!(d => document_data(x)));
                let y = from_document(x);
                rev.push(y);
            }
            let mut out: Vec<JsonValue> = Vec::new();
            while rev.len() > 0
                invariant
                    xs.len() == all.len(),
                    rev@.len() + out@.len() == all.len(),
                    forall|j: int| 0 <= j < rev@.len() ==> (#[trigger] rev@[j]).data() == xs[all.len() - 1 - j],
                    forall|j: int| 0 <= j < out@.len() ==> #[trigger] out@[j].data() == xs[j],
                    forall|j: int| 0 <= j < rev@.len() ==> unique_names(#[trigger] rev@[j]),
                    forall|j: int| 0 <= j < out@.len() ==> unique_names(#[trigger] out@[j]),
                decreases rev@.len(),
            {
                let ghost k = rev@.len() - 1;
                let y = rev.pop().unwrap();
                assert(y.data() == xs[all.len() - 1 - k]);
                out.push(y);
            }
            proof {
                lemma_items_data(out@);
                assert(items_data(out@) =~= xs);
                lemma_unique_items(out@);
            }
            JsonValue::Array(out)
        },
        JsonNode::Object(members) => {
            let ghost xs = d->Object_0;
            let ghost all = members@;
            let mut members = members;
            let mut rev: Vec<(String, JsonValue)> = Vec::new();
            while members.len() > 0
                invariant
                    d == document_data(v),
                    d == JsonData::Object(xs),
                    xs.len() == all.len(),
                    forall|i: int| 0 <= i < xs.len() ==> #[trigger] xs[i] == (all[i].0@, document_data(all[i].1)),
                    forall|i: int, j: int| 0 <= i < j < all.len() ==> #[trigger] all[i].0@ != #[trigger] all[j].0@,
                    members@ == all.subrange(0, members@.len() as int),
                    members@.len() + rev@.len() == all.len(),
                    forall|j: int| 0 <= j < rev@.len() ==> (rev@[j].0@, rev@[j].1.data()) == #[trigger] xs[all.len() - 1 - j],
                    forall|j: int| 0 <= j < rev@.len() ==> unique_names(#[trigger] rev@[j].1),
                decreases members@.len(),
            {
                let ghost k = members@.len() - 1;
                let (name, x) = members.pop().unwrap();
                assert(xs[k] == (name@, document_data(x)));
                assert(decreases_to!(d => d->Object_0));
                assert(decreases_to!(d->Object_0 => d->Object_0[k]));
                assert(decreases_to!(d->Object_0[k] => d->Object_0[k].1));
                assert(decreases_to!(d => document_data(x)));
                let y = from_document(x);
                rev.push((name, y));
            }
            let mut out: Vec<(String, JsonValue)> = Vec::new();
            while rev.len() > 0
                invariant
                    xs.len() == all.len(),
                    rev@.len() + out@.len() == all.len(),
                    forall|j: int| 0 <= j < rev@.len() ==> (rev@[j].0@, rev@[j].1.data()) == #[trigger] xs[all.len() - 1 - j],
                    forall|j: int| 0 <= j < out@.len() ==> (#[trigger] out@[j]).0@ == xs[j].0 && out@[j].1.data() == xs[j].1,
                    forall|j: int| 0 <= j < rev@.len() ==> unique_names(#[trigger] rev@[j].1),
                    forall|j: int| 0 <= j < out@.len() ==> unique_names(#[trigger] out@[j].1),
                    forall|i: int| 0 <= i < xs.len() ==> #[trigger] xs[i].0 == all[i].0@,
                    forall|i: int, j: int| 0 <= i < j < all.len() ==> #[trigger] all[i].0@ != #[trigger] all[j].0@,
                decreases rev@.len(),
            {
                let ghost k = rev@.len() - 1;
                let y = rev.pop().unwrap();
                assert((y.0@, y.1.data()) == xs[all.len() - 1 - k]);
                out.push(y);
            }
            proof {
                lemma_entries_data(out@);
                assert forall|j: int| 0 <= j < xs.len() implies entries_data(out@)[j] == xs[j] by {
                    assert((out@[j].0@, out@[j].1.data()) == xs[j]);
                }
                assert(entries_data(out@) =~= xs);
                assert forall|i: int, j: int| 0 <= i < j < out@.len() implies #[trigger] out@[i].0@ != #[trigger] out@[j].0@ by {
                    assert(out@[i].0@ == xs[i].0);
                    assert(out@[j].0@ == xs[j].0);
                    assert(xs[i].0 == all[i].0@);
                    assert(xs[j].0 == all[j].0@);
                }
                lemma_unique_members(out@);
            }
            JsonValue::Object(out)
        },
    }
}

/// Parses JSON text into the library's representation: the document that
/// `parsed_json` names for `text`, or the parser's error message where
/// `text` is not valid JSON.
pub fn parse_json(text: &str) -> (r: Result<JsonValue, String>)
    ensures
        match r {
            Ok(v) => parsed_json(text@) == Some(v.data()) && unique_names(v),
            Err(e) => parsed_json(text@) is None && e@ == json_error_text(text@),
        },
{
    match parse_document(text) {
        Ok(v) => Ok(from_document(v)),
        Err(e) => Err(e),
    }
}

} // verus!
