//! The value tree produced by the parser, and its mathematical model.
use vstd::prelude::*;
use vstd::string::StringSliceAdditionalSpecFns;
use vstd::utf8::encode_utf8;

use crate::grammar::document_at;
use crate::parse::{Error, ParseContext};


verus! {

/// `r` is what parsing the bytes `s` as a document yields: the value the grammar
/// gives, or the same error.
pub open spec fn parsed_from(s: Seq<u8>, r: Result<JSONValue, Error>) -> bool {
    match document_at(s, 0) {
        Ok(v) => r matches Ok(x) && x@ == v && x.keys_unique(),
        Err(err) => r == Err::<JSONValue, Error>(err),
    }
}

/// Parses JSON text into a value tree whose root is an object or an array.
pub fn from_str(text: &str) -> (r: Result<JSONValue, Error>)
    ensures
        parsed_from(text.spec_bytes(), r),
{
    let mut parse_context = ParseContext::new(text);
    parse_context.parse()
}

/// The mathematical value of a JSON tree. Text and number literals are held as the
/// bytes they stand for; an object is a mapping from key bytes to values.
pub enum Json {
    Object(Map<Seq<u8>, Json>),
    Array(Seq<Json>),
    Bool(bool),
    Text(Seq<u8>),
    Number(Seq<u8>),
    Null,
}

/// A parsed JSON value.
///
/// An object lists each key once; a later member with the same key replaces the value
/// of the earlier one. A number keeps the
/// exact literal text it was written as (`-3.14e-2`), which a caller converts to the
/// numeric type of its choice.
#[derive(Debug, PartialEq)]
pub enum JSONValue {
    Object(Vec<(String, JSONValue)>),
    Array(Vec<JSONValue>),
    Bool(bool),
    Text(String),
    Number(String),
    Null,
}

/// The mapping that a list of members denotes: for a repeated key, the last one wins.
pub open spec fn members_map(pairs: Seq<(Seq<u8>, Json)>) -> Map<Seq<u8>, Json>
    decreases pairs.len(),
{
    if pairs.len() == 0 {
        Map::empty()
    } else {
        members_map(pairs.drop_last()).insert(pairs.last().0, pairs.last().1)
    }
}

/// The members of an object as key bytes and modelled values.
pub open spec fn member_pairs(fields: Seq<(String, JSONValue)>) -> Seq<(Seq<u8>, Json)>
    decreases fields,
{
    Seq::new(
        fields.len(),
        |i: int|
            if 0 <= i < fields.len() {
                (encode_utf8(fields[i].0@), fields[i].1.view())
            } else {
                (Seq::empty(), Json::Null)
            },
    )
}

/// The items of an array as modelled values.
pub open spec fn items_view(items: Seq<JSONValue>) -> Seq<Json>
    decreases items,
{
    Seq::new(
        items.len(),
        |i: int|
            if 0 <= i < items.len() {
                items[i].view()
            } else {
                Json::Null
            },
    )
}

/// No key occurs twice.
pub open spec fn unique_keys(pairs: Seq<(Seq<u8>, Json)>) -> bool {
    forall|i: int, j: int| 0 <= i < j < pairs.len() ==> pairs[i].0 != pairs[j].0
}

impl View for JSONValue {
    type V = Json;

    open spec fn view(&self) -> Json
        decreases self,
    {
        match self {
            JSONValue::Object(fields) => Json::Object(members_map(member_pairs(fields@))),
            JSONValue::Array(items) => Json::Array(items_view(items@)),
            JSONValue::Bool(b) => Json::Bool(*b),
            JSONValue::Text(s) => Json::Text(encode_utf8(s@)),
            JSONValue::Number(s) => Json::Number(encode_utf8(s@)),
            JSONValue::Null => Json::Null,
        }
    }
}

impl JSONValue {
    /// Every object in the tree lists each key once.
    pub open spec fn keys_unique(&self) -> bool
        decreases self,
    {
        match self {
            JSONValue::Object(fields) => unique_keys(member_pairs(fields@)) && forall|i: int|
                0 <= i < fields@.len() ==> (#[trigger] fields@[i]).1.keys_unique(),
            JSONValue::Array(items) => forall|i: int|
                0 <= i < items@.len() ==> (#[trigger] items@[i]).keys_unique(),
            _ => true,
        }
    }
}

impl From<bool> for JSONValue {
    fn from(item: bool) -> (r: JSONValue) {
        JSONValue::Bool(item)
    }
}

impl vstd::std_specs::convert::FromSpecImpl<bool> for JSONValue {
    open spec fn obeys_from_spec() -> bool {
        true
    }

    open spec fn from_spec(v: bool) -> JSONValue {
        JSONValue::Bool(v)
    }
}

impl From<String> for JSONValue {
    fn from(item: String) -> (r: JSONValue) {
        JSONValue::Text(item)
    }
}

impl vstd::std_specs::convert::FromSpecImpl<String> for JSONValue {
    open spec fn obeys_from_spec() -> bool {
        true
    }

    open spec fn from_spec(v: String) -> JSONValue {
        JSONValue::Text(v)
    }
}

impl From<Vec<JSONValue>> for JSONValue {
    fn from(item: Vec<JSONValue>) -> (r: JSONValue) {
        JSONValue::Array(item)
    }
}

impl vstd::std_specs::convert::FromSpecImpl<Vec<JSONValue>> for JSONValue {
    open spec fn obeys_from_spec() -> bool {
        true
    }

    open spec fn from_spec(v: Vec<JSONValue>) -> JSONValue {
        JSONValue::Array(v)
    }
}

impl From<Vec<(String, JSONValue)>> for JSONValue {
    fn from(item: Vec<(String, JSONValue)>) -> (r: JSONValue) {
        JSONValue::Object(item)
    }
}

impl vstd::std_specs::convert::FromSpecImpl<Vec<(String, JSONValue)>> for JSONValue {
    open spec fn obeys_from_spec() -> bool {
        true
    }

    open spec fn from_spec(v: Vec<(String, JSONValue)>) -> JSONValue {
        JSONValue::Object(v)
    }
}

/// Appending a member adds its key with its value, over what was there.
pub proof fn lemma_members_map_push(pairs: Seq<(Seq<u8>, Json)>, kv: (Seq<u8>, Json))
    ensures
        members_map(pairs.push(kv)) == members_map(pairs).insert(kv.0, kv.1),
{
    assert(pairs.push(kv).drop_last() =~= pairs);
}

/// Replacing the value of a member whose key occurs once replaces it in the mapping.
pub proof fn lemma_members_map_update(pairs: Seq<(Seq<u8>, Json)>, j: int, v: Json)
    requires
        unique_keys(pairs),
        0 <= j < pairs.len(),
    ensures
        members_map(pairs.update(j, (pairs[j].0, v))) == members_map(pairs).insert(pairs[j].0, v),
    decreases pairs.len(),
{
    let k = pairs[j].0;
    let updated = pairs.update(j, (k, v));
    let n = pairs.len() - 1;
    if j == n {
        assert(updated.drop_last() =~= pairs.drop_last());
        assert(members_map(updated) =~= members_map(pairs).insert(k, v));
    } else {
        let front = pairs.drop_last();
        assert(updated.drop_last() =~= front.update(j, (k, v)));
        lemma_members_map_update(front, j, v);
        assert(pairs[n].0 != k);
        assert(members_map(updated) =~= members_map(pairs).insert(k, v));
    }
}

} // verus!
