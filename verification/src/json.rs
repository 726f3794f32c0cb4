//! JSON values.
//!
//! The text is read by the `serde_json` crate; what it reads becomes a [`Json`],
//! which holds the values that the library looks at.

use crate::binary64::Binary64;
use crate::text;
use vstd::prelude::*;

verus! {

/// A number, by its two readings: the integer that it is, where it is one that
/// has 64 bits, and the double that is nearest to it.
#[derive(Clone, Copy, Debug, PartialEq, Eq, Structural)]
pub struct JsonNumber {
    pub integer: Option<i64>,
    pub double: Option<Binary64>,
}

/// What a JSON value is.
pub ghost enum JsonTree {
    Null,
    Bool(bool),
    Number(JsonNumber),
    Str(Seq<char>),
    Array(Seq<JsonTree>),
    Object(Seq<(Seq<char>, JsonTree)>),
}

/// A JSON value. An object lists its entries.
#[derive(Debug)]
pub enum Json {
    Null,
    Bool(bool),
    Number(JsonNumber),
    Str(String),
    Array(Vec<Json>),
    Object(Vec<(String, Json)>),
}

impl Json {
    /// What this value is.
    pub open spec fn tree(self) -> JsonTree
        decreases self,
    {
        match self {
            Json::Null => JsonTree::Null,
            Json::Bool(b) => JsonTree::Bool(b),
            Json::Number(n) => JsonTree::Number(n),
            Json::Str(s) => JsonTree::Str(s@),
            Json::Array(items) => JsonTree::Array(
                Seq::new(
                    items@.len(),
                    |i: int|
                        if 0 <= i < items@.len() {
                            items@[i].tree()
                        } else {
                            JsonTree::Null
                        },
                ),
            ),
            Json::Object(entries) => JsonTree::Object(
                Seq::new(
                    entries@.len(),
                    |i: int|
                        if 0 <= i < entries@.len() {
                            (entries@[i].0@, entries@[i].1.tree())
                        } else {
                            (Seq::<char>::empty(), JsonTree::Null)
                        },
                ),
            ),
        }
    }
}

impl View for Json {
    type V = JsonTree;

    open spec fn view(&self) -> JsonTree {
        self.tree()
    }
}

/// What the entries of an object are.
pub open spec fn entries_view(entries: Seq<(String, Json)>) -> Seq<(Seq<char>, JsonTree)> {
    Seq::new(entries.len(), |i: int| (entries[i].0@, entries[i].1@))
}

/// The value of the first entry with a key.
pub open spec fn lookup(entries: Seq<(Seq<char>, JsonTree)>, key: Seq<char>) -> Option<JsonTree>
    decreases entries.len(),
{
    if entries.len() == 0 {
        None
    } else if entries[0].0 == key {
        Some(entries[0].1)
    } else {
        lookup(entries.drop_first(), key)
    }
}

/// Whether no key occurs twice.
pub open spec fn keys_distinct(entries: Seq<(Seq<char>, JsonTree)>) -> bool {
    forall|i: int, j: int|
        0 <= i < j < entries.len() ==> (#[trigger] entries[i]).0 != (#[trigger] entries[j]).0
}

/// Whether no object in a value has a key twice.
pub open spec fn well_keyed(tree: JsonTree) -> bool
    decreases tree,
{
    match tree {
        JsonTree::Array(items) => forall|i: int|
            0 <= i < items.len() ==> well_keyed(#[trigger] items[i]),
        JsonTree::Object(entries) => keys_distinct(entries) && forall|i: int|
            0 <= i < entries.len() ==> well_keyed((#[trigger] entries[i]).1),
        _ => true,
    }
}

impl JsonTree {
    /// The value under a key; `None` where this is no object or has no such key.
    pub open spec fn get(self, key: Seq<char>) -> Option<JsonTree> {
        match self {
            JsonTree::Object(entries) => lookup(entries, key),
            _ => None,
        }
    }

    /// The text that this is.
    pub open spec fn text(self) -> Option<Seq<char>> {
        match self {
            JsonTree::Str(s) => Some(s),
            _ => None,
        }
    }

    /// The 64-bit integer that this is.
    pub open spec fn integer(self) -> Option<i64> {
        match self {
            JsonTree::Number(n) => n.integer,
            _ => None,
        }
    }

    /// The double that this is.
    pub open spec fn double(self) -> Option<Binary64> {
        match self {
            JsonTree::Number(n) => n.double,
            _ => None,
        }
    }

    /// The entries of the object that this is; none where it is no object.
    pub open spec fn entries(self) -> Seq<(Seq<char>, JsonTree)> {
        match self {
            JsonTree::Object(entries) => entries,
            _ => Seq::empty(),
        }
    }
}

/// The value under a key of an optional object.
pub open spec fn get_in(v: Option<JsonTree>, key: Seq<char>) -> Option<JsonTree> {
    match v {
        Some(tree) => tree.get(key),
        None => None,
    }
}

/// The text under a key of the entries of an object, where there is one.
pub open spec fn text_under(entries: Seq<(Seq<char>, JsonTree)>, key: Seq<char>) -> Option<
    Seq<char>,
> {
    match lookup(entries, key) {
        Some(tree) => tree.text(),
        None => None,
    }
}

/// The double that an optional value is.
pub open spec fn double_in(v: Option<JsonTree>) -> Option<Binary64> {
    match v {
        Some(tree) => tree.double(),
        None => None,
    }
}

/// Where no key occurs twice, the value under a key is that of the one entry
/// that has it, wherever in the object it stands.
pub proof fn lookup_finds_the_entry(entries: Seq<(Seq<char>, JsonTree)>, i: int)
    requires
        keys_distinct(entries),
        0 <= i < entries.len(),
    ensures
        lookup(entries, entries[i].0) == Some(entries[i].1),
    decreases entries.len(),
{
    if i > 0 {
        let rest = entries.drop_first();
        assert(entries[0].0 != entries[i].0);
        assert forall|a: int, b: int| 0 <= a < b < rest.len() implies (#[trigger] rest[a]).0 != (
        #[trigger] rest[b]).0 by {
            assert(rest[a] == entries[a + 1]);
            assert(rest[b] == entries[b + 1]);
        }
        lookup_finds_the_entry(rest, i - 1);
        assert(rest[i - 1] == entries[i]);
    }
}

/// The value of the first entry with a key.
pub fn find<'a>(entries: &'a [(String, Json)], key: &str) -> (value: Option<&'a Json>)
    ensures
        match value {
            Some(v) => lookup(entries_view(entries@), key@) == Some(v@),
            None => lookup(entries_view(entries@), key@) is None,
        },
{
    let ghost all = entries_view(entries@);
    let mut i: usize = 0;
    assert(all.skip(0) == all);
    while i < entries.len()
        invariant
            i <= entries@.len(),
            all == entries_view(entries@),
            lookup(all.skip(i as int), key@) == lookup(all, key@),
        decreases entries@.len() - i,
    {
        let ghost rest = all.skip(i as int);
        assert(rest[0] == (entries@[i as int].0@, entries@[i as int].1@));
        assert(rest.drop_first() == all.skip(i + 1));
        if text::same_text(entries[i].0.as_str(), key) {
            return Some(&entries[i].1);
        }
        i += 1;
    }
    None
}

/// The text under a key of the entries of an object, where there is one.
pub fn find_text<'a>(entries: &'a [(String, Json)], key: &str) -> (value: Option<&'a str>)
    ensures
        match value {
            Some(s) => text_under(entries_view(entries@), key@) == Some(s@),
            None => text_under(entries_view(entries@), key@) is None,
        },
{
    match find(entries, key) {
        Some(Json::Str(s)) => Some(s.as_str()),
        _ => None,
    }
}

impl Json {
    /// The value under a key; `None` where this is no object or has no such key.
    pub fn get(&self, key: &str) -> (value: Option<&Json>)
        ensures
            match value {
                Some(v) => self@.get(key@) == Some(v@),
                None => self@.get(key@) is None,
            },
    {
        match self {
            Json::Object(entries) => {
                assert(self@->Object_0 == entries_view(entries@));
                find(entries.as_slice(), key)
            },
            _ => None,
        }
    }

    /// The 64-bit integer that this is.
    pub fn as_i64(&self) -> (value: Option<i64>)
        ensures
            value == self@.integer(),
    {
        match self {
            Json::Number(n) => n.integer,
            _ => None,
        }
    }

    /// The double that this is.
    pub fn as_double(&self) -> (value: Option<Binary64>)
        ensures
            value == self@.double(),
    {
        match self {
            Json::Number(n) => n.double,
            _ => None,
        }
    }
}

#[verifier::external_type_specification]
#[verifier::external_body]
pub struct ExValue(serde_json::Value);

/// What a value of `serde_json` holds.
pub uninterp spec fn value_tree(value: serde_json::Value) -> JsonTree;

/// What `serde_json::from_str` makes of a text: a value, or the message of the
/// error.
pub uninterp spec fn json_reading(text: Seq<char>) -> Result<JsonTree, Seq<char>>;

/// Calls `serde_json::from_str`, and `to_string` on the error. The outcome is
/// named.
#[verifier::external_body]
fn read_value(text: &str) -> (outcome: Result<serde_json::Value, String>)
    ensures
        match outcome {
            Ok(value) => json_reading(text@) == Ok::<JsonTree, Seq<char>>(value_tree(value)),
            Err(message) => json_reading(text@) == Err::<JsonTree, Seq<char>>(message@),
        },
{
    serde_json::from_str(text).map_err(|error| error.to_string())
}

/// One level of a value of `serde_json`.
pub enum Parts<'a> {
    Null,
    Bool(bool),
    Number(JsonNumber),
    Str(&'a String),
    Array(&'a Vec<serde_json::Value>),
    Object(Vec<(&'a String, &'a serde_json::Value)>),
}

/// Tells the variants of `serde_json::Value` apart. The values inside an array or
/// an object are those that the value holds, in their order, and no key of an
/// object occurs twice; a number is read by `as_i64` and `as_f64`.
#[verifier::external_body]
fn value_parts<'a>(value: &'a serde_json::Value) -> (parts: Parts<'a>)
    ensures
        match parts {
            Parts::Null => value_tree(*value) == JsonTree::Null,
            Parts::Bool(b) => value_tree(*value) == JsonTree::Bool(b),
            Parts::Number(n) => value_tree(*value) == JsonTree::Number(n),
            Parts::Str(s) => value_tree(*value) == JsonTree::Str(s@),
            Parts::Array(items) => value_tree(*value) == JsonTree::Array(
                Seq::new(items@.len(), |i: int| value_tree(items@[i])),
            ),
            Parts::Object(entries) => value_tree(*value) == JsonTree::Object(
                Seq::new(entries@.len(), |i: int| (entries@[i].0@, value_tree(*entries@[i].1))),
            ) && keys_distinct(value_tree(*value).entries()),
        },
{
    match value {
        serde_json::Value::Null => Parts::Null,
        serde_json::Value::Bool(b) => Parts::Bool(*b),
        serde_json::Value::Number(n) => Parts::Number(JsonNumber {
            integer: n.as_i64(),
            double: n.as_f64().map(|x| Binary64 { bits: x.to_bits() }),
        }),
        serde_json::Value::String(s) => Parts::Str(s),
        serde_json::Value::Array(items) => Parts::Array(items),
        serde_json::Value::Object(map) => Parts::Object(map.iter().collect()),
    }
}

/// The library's own form of a value of `serde_json`.
fn json_of(value: &serde_json::Value) -> (json: Json)
    ensures
        json@ == value_tree(*value),
        well_keyed(json@),
    decreases value_tree(*value),
{
    match value_parts(value) {
        Parts::Null => Json::Null,
        Parts::Bool(b) => Json::Bool(b),
        Parts::Number(n) => Json::Number(n),
        Parts::Str(s) => Json::Str(s.clone()),
        Parts::Array(items) => {
            let ghost tree = value_tree(*value);
            let mut list: Vec<Json> = Vec::new();
            let mut i: usize = 0;
            while i < items.len()
                invariant
                    i <= items@.len(),
                    tree == value_tree(*value),
                    tree == JsonTree::Array(
                        Seq::new(items@.len(), |i: int| value_tree(items@[i])),
                    ),
                    list@.len() == i,
                    forall|j: int|
                        0 <= j < i ==> (#[trigger] list@[j])@ == value_tree(items@[j])
                            && well_keyed(list@[j]@),
                decreases items@.len() - i,
            {
                proof {
                    assert(tree->Array_0[i as int] == value_tree(items@[i as int]));
                }
                list.push(json_of(&items[i]));
                i += 1;
            }
            let json: Json = Json::Array(list);
            assert(json@->Array_0 =~= tree->Array_0);
            assert forall|j: int| 0 <= j < json@->Array_0.len() implies well_keyed(
                #[trigger] json@->Array_0[j],
            ) by {
                assert(well_keyed(list@[j]@));
            }
            json
        },
        Parts::Object(entries) => {
            let ghost tree = value_tree(*value);
            let mut list: Vec<(String, Json)> = Vec::new();
            let mut i: usize = 0;
            while i < entries.len()
                invariant
                    i <= entries@.len(),
                    tree == value_tree(*value),
                    tree == JsonTree::Object(
                        Seq::new(
                            entries@.len(),
                            |i: int| (entries@[i].0@, value_tree(*entries@[i].1)),
                        ),
                    ),
                    list@.len() == i,
                    forall|j: int|
                        0 <= j < i ==> (#[trigger] list@[j]).0@ == entries@[j].0@ && list@[j].1@
                            == value_tree(*entries@[j].1) && well_keyed(list@[j].1@),
                decreases entries@.len() - i,
            {
                proof {
                    assert(tree->Object_0[i as int].1 == value_tree(*entries@[i as int].1));
                }
                list.push((entries[i].0.clone(), json_of(entries[i].1)));
                i += 1;
            }
            let json: Json = Json::Object(list);
            assert(json@->Object_0 =~= tree->Object_0);
            assert forall|j: int| 0 <= j < json@->Object_0.len() implies well_keyed(
                (#[trigger] json@->Object_0[j]).1,
            ) by {
                assert(well_keyed(list@[j].1@));
            }
            json
        },
    }
}

/// The JSON value that `text` writes, or a message that says what is wrong.
pub fn parse_json(text: &str) -> (outcome: Result<Json, String>)
    ensures
        match outcome {
            Ok(json) => json_reading(text@) == Ok::<JsonTree, Seq<char>>(json@) && well_keyed(
                json@,
            ),
            Err(message) => json_reading(text@) == Err::<JsonTree, Seq<char>>(message@),
        },
{
    match read_value(text) {
        Ok(value) => Ok(json_of(&value)),
        Err(message) => Err(message),
    }
}

} // verus!
