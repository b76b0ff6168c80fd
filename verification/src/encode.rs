//! The JSON text of a value, written by `serde_json`.

use crate::json::{
    items_model, lemma_item_smaller, lemma_member_smaller, lemma_members_push, members_model, Json,
    JsonModel,
};
use vstd::prelude::*;

verus! {

/// A value of `serde_json`, opaque here: [`value_model`] says what it holds.
#[verifier::external_type_specification]
#[verifier::external_body]
pub struct ExValue(serde_json::Value);

/// An object of `serde_json`, opaque here: [`map_contents`] says what it holds.
#[verifier::external_type_specification]
#[verifier::external_body]
#[verifier::reject_recursive_types(K)]
#[verifier::reject_recursive_types(V)]
pub struct ExMap<K, V>(serde_json::Map<K, V>);

/// What a `serde_json::Value` holds.
pub uninterp spec fn value_model(value: serde_json::Value) -> JsonModel;

/// What a `serde_json::Map` holds.
pub uninterp spec fn map_contents(map: serde_json::Map<String, serde_json::Value>) -> Map<
    Seq<char>,
    JsonModel,
>;

/// The bytes that `serde_json::to_vec` writes for a value.
pub uninterp spec fn json_bytes(value: JsonModel) -> Seq<u8>;

/// Some value of `serde_json` holds this.
pub open spec fn is_value(model: JsonModel) -> bool {
    exists|value: serde_json::Value| #[trigger] value_model(value) == model
}

/// A value of `serde_json` whose text no other value has.
pub open spec fn is_known(model: JsonModel) -> bool {
    &&& is_value(model)
    &&& forall|other: JsonModel|
        is_value(other) && #[trigger] json_bytes(other) == json_bytes(model) ==> other == model
}

/// The text of an object with two or more keys is longer than any two of them: each key
/// stands in quotes before a colon and a value.
pub open spec fn holds_two_keys(model: JsonModel, length: nat) -> bool {
    match model {
        JsonModel::Object(fields) => forall|a: Seq<char>, b: Seq<char>|
            fields.contains_key(a) && fields.contains_key(b) && a != b ==> length >= #[trigger]
                a.len() + #[trigger] b.len() + 11,
        _ => true,
    }
}

/// The `serde_json::Number` of an unsigned integer.
pub uninterp spec fn unsigned_number(n: usize) -> serde_json::Number;

/// No other integer has the number of `n`.
pub open spec fn is_own_number(n: usize) -> bool {
    forall|m: usize| #[trigger] unsigned_number(m) == unsigned_number(n) ==> m == n
}

/// `serde_json::Value::Null` holds null.
#[verifier::external_body]
fn null_value() -> (value: serde_json::Value)
    ensures
        value_model(value) == JsonModel::Null,
{
    serde_json::Value::Null
}

/// `serde_json::Value::Bool` holds the truth value that it is made of.
#[verifier::external_body]
fn bool_value(b: bool) -> (value: serde_json::Value)
    ensures
        value_model(value) == JsonModel::Bool(b),
{
    serde_json::Value::Bool(b)
}

/// `serde_json::Value::Number` holds the number that it is made of.
#[verifier::external_body]
fn number_value(number: serde_json::Number) -> (value: serde_json::Value)
    ensures
        value_model(value) == JsonModel::Number(number),
{
    serde_json::Value::Number(number)
}

/// `serde_json::Value::String` holds the text that it is made of.
#[verifier::external_body]
fn string_value(text: String) -> (value: serde_json::Value)
    ensures
        value_model(value) == JsonModel::String(text@),
{
    serde_json::Value::String(text)
}

/// `serde_json::Value::Array` holds the items that it is made of, in their order.
#[verifier::external_body]
fn array_value(items: Vec<serde_json::Value>) -> (value: serde_json::Value)
    ensures
        value_model(value) == JsonModel::Array(
            Seq::new(items@.len(), |i: int| value_model(items@[i])),
        ),
{
    serde_json::Value::Array(items)
}

/// `serde_json::Value::Object` holds the members of the map that it is made of.
#[verifier::external_body]
fn object_value(map: serde_json::Map<String, serde_json::Value>) -> (value: serde_json::Value)
    ensures
        value_model(value) == JsonModel::Object(map_contents(map)),
{
    serde_json::Value::Object(map)
}

/// `serde_json::Map::new` makes an empty map.
#[verifier::external_body]
fn new_map() -> (fresh: serde_json::Map<String, serde_json::Value>)
    ensures
        (map_contents(fresh) == Map::<Seq<char>, JsonModel>::empty()),
{
    serde_json::Map::new()
}

/// `serde_json::Map::insert` maps the key to the value, in place of the value that the
/// key may have had, and keeps every other member.
#[verifier::external_body]
fn map_insert(
    map: &mut serde_json::Map<String, serde_json::Value>,
    key: String,
    value: serde_json::Value,
)
    ensures
        map_contents(*final(map)) == map_contents(*old(map)).insert(key@, value_model(value)),
{
    map.insert(key, value);
}

/// `serde_json::to_vec` writes a value as compact JSON text; an error, which it does
/// not give for a `Value`, would leave the text empty. A `serde_json::Map` keeps its
/// members in key order (it is a `BTreeMap` unless the feature `preserve_order` is on),
/// so the text depends only on what the value holds. Different values have different
/// texts: strings are escaped so that they can be read back, an integer is written with
/// all of its digits, and a float as the shortest decimal that stands for no other. An
/// object is written as braces round its members, with a comma between two of them, and
/// each member as its key in quotes, a colon, and at least one byte for the value.
#[verifier::external_body]
fn value_to_vec(value: &serde_json::Value) -> (bytes: Vec<u8>)
    ensures
        bytes@ == json_bytes(value_model(*value)),
        (forall|other: serde_json::Value|
            json_bytes(#[trigger] value_model(other)) == bytes@ ==> value_model(other)
                == value_model(*value)),
        holds_two_keys(value_model(*value), bytes@.len()),
{
    serde_json::to_vec(value).unwrap_or_default()
}

/// `serde_json::Number::from` makes the number of an unsigned integer, which it keeps as
/// it is: different integers make different numbers.
#[verifier::external_body]
pub(crate) fn number_from_usize(n: usize) -> (number: serde_json::Number)
    ensures
        number == unsigned_number(n),
        (forall|m: usize| #[trigger] unsigned_number(m) == number ==> m == n),
{
    serde_json::Number::from(n)
}

/// Hands a value over to `serde_json`.
fn to_value(json: &Json) -> (value: serde_json::Value)
    ensures
        value_model(value) == json@,
    decreases json,
{
    match json {
        Json::Null => null_value(),
        Json::Bool(b) => bool_value(*b),
        Json::Number(n) => number_value(n.clone()),
        Json::String(s) => string_value(s.clone()),
        Json::Array(items) => {
            let mut values: Vec<serde_json::Value> = Vec::new();
            let mut i: usize = 0;
            while i < items.len()
                invariant
                    *json == Json::Array(*items),
                    i <= items@.len(),
                    values@.len() == i,
                    forall|j: int| 0 <= j < i ==> value_model(#[trigger] values@[j]) == items@[j]@,
                decreases items@.len() - i,
            {
                proof {
                    lemma_item_smaller(*items, i as int);
                }
                values.push(to_value(&items[i]));
                i = i + 1;
            }
            assert(Seq::new(values@.len(), |i: int| value_model(values@[i])) =~= items_model(
                items@,
            ));
            array_value(values)
        },
        Json::Object(members) => {
            let mut map = new_map();
            let mut i: usize = 0;
            assert(members@.take(0) =~= Seq::empty());
            while i < members.len()
                invariant
                    *json == Json::Object(*members),
                    i <= members@.len(),
                    map_contents(map) == members_model(members@.take(i as int)),
                decreases members@.len() - i,
            {
                proof {
                    lemma_member_smaller(*members, i as int);
                    lemma_members_push(members@.take(i as int), members@[i as int]);
                    assert(members@.take(i as int).push(members@[i as int]) =~= members@.take(
                        i + 1,
                    ));
                }
                map_insert(&mut map, members[i].0.clone(), to_value(&members[i].1));
                i = i + 1;
            }
            assert(members@.take(i as int) =~= members@);
            object_value(map)
        },
    }
}

/// The JSON text of a value.
pub fn json_to_vec(json: &Json) -> (bytes: Vec<u8>)
    ensures
        bytes@ == json_bytes(json@),
        is_known(json@),
        holds_two_keys(json@, bytes@.len()),
{
    let value = to_value(json);
    value_to_vec(&value)
}

} // verus!
