use vstd::prelude::*;
use crate::text::str_eq;

verus! {

/// A JSON document as the configuration logic reads it: strings, booleans,
/// arrays and objects (entries in document order, each key once); numbers are
/// kept only as a kind, since nothing here reads their value.
#[derive(Debug)]
pub enum Json {
    Null,
    Bool(bool),
    Number,
    Str(String),
    Array(Vec<Json>),
    Object(Vec<(String, Json)>),
}

/// `json::JsonValue`, the document tree of the `json` crate.
#[verifier::external_type_specification]
#[verifier::external_body]
pub struct ExJsonValue(json::JsonValue);

/// What `json::parse` makes of a text: `None` where it reports an error,
/// otherwise the parsed document as a [`Json`].
pub uninterp spec fn json_parse(text: Seq<char>) -> Option<Json>;

/// The tree of `json::JsonValue` as a [`Json`]: `Short` and `String`
/// become `Str`, `Boolean` becomes `Bool`, any `Number` becomes `Number`,
/// arrays and objects keep their members and entries in the order the
/// `json` crate iterates them. It serves [`parse_json`] alone, whose
/// contract covers what it returns.
#[verifier::external_body]
fn json_of_value(v: &json::JsonValue) -> Json {
    match v {
        json::JsonValue::Null => Json::Null,
        json::JsonValue::Short(s) => Json::Str(s.as_str().to_string()),
        json::JsonValue::String(s) => Json::Str(s.clone()),
        json::JsonValue::Number(_) => Json::Number,
        json::JsonValue::Boolean(b) => Json::Bool(*b),
        json::JsonValue::Object(o) => Json::Object(o.iter().map(|(k, x)| (k.to_string(), json_of_value(x))).collect()),
        json::JsonValue::Array(a) => Json::Array(a.iter().map(json_of_value).collect()),
    }
}

/// Calls `json::parse` on `text`. The contract claims that the result is
/// the named parse of the text, [`json_parse`]; nothing is stated of which
/// texts the `json` crate accepts.
#[verifier::external_body]
pub(crate) fn parse_json(text: &str) -> (r: Option<Json>)
    ensures
        r == json_parse(text@),
{
    match json::parse(text) {
        Ok(v) => Some(json_of_value(&v)),
        Err(_) => None,
    }
}

/// The value under `key` in the entries `es`, the first entry with that key.
pub open spec fn lookup(es: Seq<(String, Json)>, key: Seq<char>) -> Option<Json>
    decreases es.len(),
{
    if es.len() == 0 {
        None
    } else if es[0].0@ == key {
        Some(es[0].1)
    } else {
        lookup(es.drop_first(), key)
    }
}

/// `j[key]` as the `json` crate reads it: the entry's value when `j` is an
/// object holding `key`, `Null` otherwise.
pub open spec fn spec_get(j: Json, key: Seq<char>) -> Json {
    match j {
        Json::Object(es) => match lookup(es@, key) {
            Some(v) => v,
            None => Json::Null,
        },
        _ => Json::Null,
    }
}

/// The members of an array; nothing for any other value.
pub open spec fn spec_members(j: Json) -> Seq<Json> {
    match j {
        Json::Array(v) => v@,
        _ => Seq::empty(),
    }
}

/// The strings among `ms`, in order.
pub open spec fn strings_of(ms: Seq<Json>) -> Seq<Seq<char>>
    decreases ms.len(),
{
    if ms.len() == 0 {
        Seq::empty()
    } else {
        strings_of(ms.drop_last()) + match ms.last() {
            Json::Str(s) => seq![s@],
            _ => Seq::empty(),
        }
    }
}

/// The views of a sequence of strings.
pub open spec fn views(v: Seq<String>) -> Seq<Seq<char>> {
    v.map_values(|s: String| s@)
}

impl Json {
    /// `self[key]` when `self` is an object holding `key`.
    pub fn get(&self, key: &str) -> (r: Option<&Json>)
        ensures
            match r {
                Some(v) => *self is Object && spec_get(*self, key@) == *v
                    && lookup(self->Object_0@, key@) == Some(*v),
                None => spec_get(*self, key@) == Json::Null && (*self is Object ==> lookup(
                    self->Object_0@,
                    key@,
                ) is None),
            },
    {
        match self {
            Json::Object(es) => {
                let mut i: usize = 0;
                assert(es@.skip(0) =~= es@);
                while i < es.len()
                    invariant
                        *self == Json::Object(*es),
                        i <= es@.len(),
                        lookup(es@, key@) == lookup(es@.skip(i as int), key@),
                    decreases es@.len() - i,
                {
                    assert(es@.skip(i as int).drop_first() =~= es@.skip(i + 1));
                    assert(es@.skip(i as int)[0] == es@[i as int]);
                    if str_eq(es[i].0.as_str(), key) {
                        return Some(&es[i].1);
                    }
                    i = i + 1;
                }
                None
            },
            _ => None,
        }
    }

    /// The strings among the members of `self` (nothing unless `self` is an array).
    pub fn string_members(&self) -> (r: Vec<String>)
        ensures
            views(r@) == strings_of(spec_members(*self)),
    {
        let mut r: Vec<String> = Vec::new();
        match self {
            Json::Array(items) => {
                let mut i: usize = 0;
                while i < items.len()
                    invariant
                        i <= items@.len(),
                        views(r@) == strings_of(items@.take(i as int)),
                    decreases items@.len() - i,
                {
                    assert(items@.take(i + 1).drop_last() =~= items@.take(i as int));
                    match &items[i] {
                        Json::Str(s) => {
                            r.push(s.clone());
                        },
                        _ => {},
                    }
                    assert(views(r@) =~= strings_of(items@.take(i + 1)));
                    i = i + 1;
                }
                assert(items@.take(items@.len() as int) =~= items@);
            },
            _ => {
                assert(views(r@) =~= strings_of(spec_members(*self)));
            },
        }
        r
    }
}

} // verus!
