//! A JSON document as the library reads it: the values of Chrome's
//! preference files, manifests and locale message catalogs.
//!
//! Text is parsed by `serde_json`. Objects keep their entries in the order
//! the parser hands them over (`serde_json`'s map, as built here, orders
//! keys and keeps the last of repeated keys); lookups return the first
//! entry with the requested key. Numbers carry their value when it is an
//! integer that fits in `i64`, and `None` otherwise.

use vstd::prelude::*;

verus! {

#[derive(Debug)]
pub enum JsonValue {
    Null,
    Bool(bool),
    Number(Option<i64>),
    Str(String),
    Array(Vec<JsonValue>),
    Object(Vec<(String, JsonValue)>),
}

/// First value stored under `key` in an object's entries.
pub open spec fn entries_get(e: Seq<(String, JsonValue)>, key: Seq<char>) -> Option<JsonValue>
    decreases e.len(),
{
    if e.len() == 0 {
        None
    } else if e[0].0@ == key {
        Some(e[0].1)
    } else {
        entries_get(e.drop_first(), key)
    }
}

/// Integer values of an array, skipping everything that is not an `i64`
/// number (what `filter_map(as_i64)` keeps).
pub open spec fn ints_of(s: Seq<JsonValue>) -> Seq<i64>
    decreases s.len(),
{
    if s.len() == 0 {
        Seq::<i64>::empty()
    } else {
        let rest = ints_of(s.drop_first());
        match s[0] {
            JsonValue::Number(Some(n)) => seq![n] + rest,
            _ => rest,
        }
    }
}

/// Character view of an optional string.
pub open spec fn opt_view(o: Option<String>) -> Option<Seq<char>> {
    match o {
        Some(s) => Some(s@),
        None => None,
    }
}

impl JsonValue {
    /// Member `key` of an object; `None` for any other value.
    pub open spec fn spec_get(self, key: Seq<char>) -> Option<JsonValue> {
        match self {
            JsonValue::Object(e) => entries_get(e@, key),
            _ => None,
        }
    }

    pub open spec fn spec_as_str(self) -> Option<Seq<char>> {
        match self {
            JsonValue::Str(s) => Some(s@),
            _ => None,
        }
    }

    pub open spec fn spec_as_i64(self) -> Option<i64> {
        match self {
            JsonValue::Number(n) => n,
            _ => None,
        }
    }

    pub open spec fn spec_as_bool(self) -> Option<bool> {
        match self {
            JsonValue::Bool(b) => Some(b),
            _ => None,
        }
    }

    pub open spec fn spec_entries(self) -> Option<Seq<(String, JsonValue)>> {
        match self {
            JsonValue::Object(e) => Some(e@),
            _ => None,
        }
    }

    /// Member lookup along a path of keys.
    pub open spec fn spec_get2(self, k1: Seq<char>, k2: Seq<char>) -> Option<JsonValue> {
        match self.spec_get(k1) {
            Some(v) => v.spec_get(k2),
            None => None,
        }
    }

    /// Member `key` of an object.
    pub fn get(&self, key: &str) -> (r: Option<&JsonValue>)
        ensures
            match r {
                Some(v) => self.spec_get(key@) == Some(*v),
                None => self.spec_get(key@) is None,
            },
    {
        match self {
            JsonValue::Object(entries) => entries_lookup(entries, key),
            _ => None,
        }
    }

    /// The string, when this is a string.
    pub fn as_str(&self) -> (r: Option<&str>)
        ensures
            match r {
                Some(s) => self.spec_as_str() == Some(s@),
                None => self.spec_as_str() is None,
            },
    {
        match self {
            JsonValue::Str(s) => Some(s.as_str()),
            _ => None,
        }
    }

    /// The integer, when this is a number that fits in `i64`.
    pub fn as_i64(&self) -> (r: Option<i64>)
        ensures
            r == self.spec_as_i64(),
    {
        match self {
            JsonValue::Number(n) => *n,
            _ => None,
        }
    }

    /// The boolean, when this is a boolean.
    pub fn as_bool(&self) -> (r: Option<bool>)
        ensures
            r == self.spec_as_bool(),
    {
        match self {
            JsonValue::Bool(b) => Some(*b),
            _ => None,
        }
    }

    /// The entries, when this is an object.
    pub fn as_object(&self) -> (r: Option<&Vec<(String, JsonValue)>>)
        ensures
            match r {
                Some(e) => self.spec_entries() == Some(e@),
                None => self.spec_entries() is None,
            },
    {
        match self {
            JsonValue::Object(e) => Some(e),
            _ => None,
        }
    }

    /// Whether this is an object.
    pub fn is_object(&self) -> (r: bool)
        ensures
            r == (self.spec_entries() is Some),
    {
        match self {
            JsonValue::Object(_) => true,
            _ => false,
        }
    }
}

/// First value stored under `key`.
pub fn entries_lookup<'a>(entries: &'a Vec<(String, JsonValue)>, key: &str) -> (r: Option<&'a JsonValue>)
    ensures
        match r {
            Some(v) => entries_get(entries@, key@) == Some(*v),
            None => entries_get(entries@, key@) is None,
        },
{
    let mut i: usize = 0;
    assert(entries@.skip(0) =~= entries@);
    while i < entries.len()
        invariant
            i <= entries@.len(),
            entries_get(entries@, key@) == entries_get(entries@.skip(i as int), key@),
        decreases entries@.len() - i,
    {
        let ghost rest = entries@.skip(i as int);
        if crate::text::str_eq(entries[i].0.as_str(), key) {
            return Some(&entries[i].1);
        }
        assert(rest.drop_first() =~= entries@.skip(i + 1));
        i = i + 1;
    }
    None
}

/// Integer values of an array, skipping non-integers.
pub fn ints_in(values: &Vec<JsonValue>) -> (r: Vec<i64>)
    ensures
        r@ == ints_of(values@),
{
    let mut out: Vec<i64> = Vec::new();
    let mut i = values.len();
    assert(values@.skip(i as int) =~= Seq::<JsonValue>::empty());
    while i > 0
        invariant
            i <= values@.len(),
            out@ == ints_of(values@.skip(i as int)),
        decreases i,
    {
        i = i - 1;
        assert(values@.skip(i as int).drop_first() =~= values@.skip(i + 1));
        match values[i].as_i64() {
            Some(n) => {
                let mut next = vec![n];
                next.append(&mut out);
                out = next;
            },
            None => {},
        }
    }
    assert(values@.skip(0) =~= values@);
    out
}

#[verifier::external_type_specification]
#[verifier::external_body]
pub struct ExSerdeJsonValue(serde_json::Value);

/// What `serde_json::from_str::<serde_json::Value>` makes of `text`,
/// converted value for value into a `JsonValue` (`None` when the text is
/// not JSON). Parsing JSON is a function of the text alone.
pub uninterp spec fn spec_parse_json(text: Seq<char>) -> Option<JsonValue>;

/// `serde_json::from_str::<serde_json::Value>`, with the value converted
/// variant by variant into a `JsonValue` (a number keeps
/// `Number::as_i64`). The contract only names the result: it is the same
/// for the same text.
#[verifier::external_body]
pub fn parse_json(text: &str) -> (r: Option<JsonValue>)
    ensures
        r == spec_parse_json(text@),
{
    match serde_json::from_str::<serde_json::Value>(text) {
        Ok(v) => Some(from_serde_value(v)),
        Err(_) => None,
    }
}

/// The conversion `parse_json` applies: each `serde_json::Value` variant to
/// the `JsonValue` variant of the same name, fields moved. Nothing about
/// the result is stated here; `parse_json` names it as a whole.
#[verifier::external_body]
fn from_serde_value(v: serde_json::Value) -> JsonValue {
    match v {
        serde_json::Value::Null => JsonValue::Null,
        serde_json::Value::Bool(b) => JsonValue::Bool(b),
        serde_json::Value::Number(n) => JsonValue::Number(n.as_i64()),
        serde_json::Value::String(s) => JsonValue::Str(s),
        serde_json::Value::Array(a) => JsonValue::Array(a.into_iter().map(from_serde_value).collect()),
        serde_json::Value::Object(m) => JsonValue::Object(m.into_iter().map(|(k, x)| (k, from_serde_value(x))).collect()),
    }
}

/// The document in a file's text: `Null` when the file could not be read
/// (`None`) or is not JSON.
pub open spec fn doc_or_null(text: Option<String>) -> JsonValue {
    match text {
        Some(t) => match spec_parse_json(t@) {
            Some(v) => v,
            None => JsonValue::Null,
        },
        None => JsonValue::Null,
    }
}

/// A manifest from its file's text (`None` when it could not be read):
/// the parsed document, or `Null`.
pub fn read_manifest(text: &Option<String>) -> (r: JsonValue)
    ensures
        r == doc_or_null(*text),
{
    match text {
        Some(t) => match parse_json(t.as_str()) {
            Some(v) => v,
            None => JsonValue::Null,
        },
        None => JsonValue::Null,
    }
}

/// The document in an optional file text (`None` when it could not be
/// read or is not JSON).
pub open spec fn parsed_text(text: Option<String>) -> Option<JsonValue> {
    match text {
        Some(t) => spec_parse_json(t@),
        None => None,
    }
}

/// Parse an optional file text.
pub fn parse_text(text: &Option<String>) -> (r: Option<JsonValue>)
    ensures
        r == parsed_text(*text),
{
    match text {
        Some(t) => parse_json(t.as_str()),
        None => None,
    }
}

} // verus!
