//! The JSON values that decoding builds and reads, and the mathematical
//! model the contracts speak of.
//!
//! The values themselves are `serde_json`'s. Verus sees nothing inside
//! them, so this module names what they hold ([`json_view`],
//! [`object_view`]) and states, for each operation of `serde_json` that the
//! decoder uses, what it does to that content. Those statements are taken on
//! trust; everything built on them is proved.

use vstd::prelude::*;

verus! {

/// The mathematical content of a JSON value.
///
/// `Number` is a number held as an integer. `Fraction` stands for a number
/// held as floating point, whose value the model leaves out; decoding
/// produces none.
pub enum Json {
    Null,
    Bool(bool),
    Number(int),
    Fraction,
    Text(Seq<char>),
    Array(Seq<Json>),
    Object(Map<Seq<char>, Json>),
}

/// `serde_json::Value`, made known so that it can stand in signatures.
/// Nothing is known of what is inside a value but what [`json_view`] names.
#[verifier::external_type_specification]
#[verifier::external_body]
pub struct ExValue(serde_json::Value);

/// `serde_json::Map`, made known so that it can stand in signatures.
/// Nothing is known of what is inside a map but what [`object_view`] names.
#[verifier::external_type_specification]
#[verifier::external_body]
#[verifier::reject_recursive_types(K)]
#[verifier::reject_recursive_types(V)]
pub struct ExObject<K, V>(serde_json::Map<K, V>);

/// A JSON object as `serde_json` holds it: values by key.
pub type Object = serde_json::Map<String, serde_json::Value>;

/// What a `serde_json::Value` holds: nothing for `Null`, the truth value
/// of a `Bool`, the integer of a `Number` that is held as an integer,
/// [`Json::Fraction`] for a `Number` held as floating point, the characters
/// of a `String`, the contents of an `Array`'s elements in order, and the
/// contents of an `Object`'s values by key.
pub uninterp spec fn json_view(v: serde_json::Value) -> Json;

/// The entries of a `serde_json::Map`: by the characters of each key,
/// what the value under it holds.
pub uninterp spec fn object_view(m: Object) -> Map<Seq<char>, Json>;

/// `serde_json::Value::Bool`: the JSON boolean `b`.
#[verifier::external_body]
pub(crate) fn json_bool(b: bool) -> (v: serde_json::Value)
    ensures
        json_view(v) == Json::Bool(b),
{
    serde_json::Value::Bool(b)
}

/// `<serde_json::Value as From<u32>>::from`: the JSON number `n`, held as
/// a non-negative integer.
#[verifier::external_body]
pub(crate) fn json_number(n: u32) -> (v: serde_json::Value)
    ensures
        json_view(v) == Json::Number(n as int),
{
    serde_json::Value::from(n)
}

/// `serde_json::Value::String`: the JSON string with the characters of `s`.
#[verifier::external_body]
pub(crate) fn json_text(s: String) -> (v: serde_json::Value)
    ensures
        json_view(v) == Json::Text(s@),
{
    serde_json::Value::String(s)
}

/// `serde_json::Value::Object`: the JSON object with the entries of `m`.
#[verifier::external_body]
pub(crate) fn json_object(m: Object) -> (v: serde_json::Value)
    ensures
        json_view(v) == Json::Object(object_view(m)),
{
    serde_json::Value::Object(m)
}

/// `serde_json::Value::as_u64`: the number itself where the value is a
/// number held as an integer from 0 to `u64::MAX`, and nothing for every
/// other value.
#[verifier::external_body]
pub(crate) fn json_as_u64(v: &serde_json::Value) -> (r: Option<u64>)
    ensures
        r is Some <==> (json_view(*v) matches Json::Number(n) && 0 <= n <= u64::MAX),
        r matches Some(x) ==> json_view(*v) == Json::Number(x as int),
{
    v.as_u64()
}

/// `<serde_json::Value as Clone>::clone`: a value with the same content.
#[verifier::external_body]
pub(crate) fn json_clone(v: &serde_json::Value) -> (r: serde_json::Value)
    ensures
        json_view(r) == json_view(*v),
{
    v.clone()
}

/// `serde_json::Map::new`: a map without entries.
#[verifier::external_body]
pub(crate) fn object_new() -> (m: Object)
    ensures
        object_view(m) == (Map::<Seq<char>, Json>::empty()),
{
    serde_json::Map::new()
}

/// `serde_json::Map::insert`: afterwards `key` maps to `value`, and every
/// other key maps to what it mapped to before.
#[verifier::external_body]
pub(crate) fn object_insert(m: &mut Object, key: String, value: serde_json::Value)
    ensures
        object_view(*final(m)) == object_view(*old(m)).insert(key@, json_view(value)),
{
    m.insert(key, value);
}

/// `serde_json::Map::get`: the value that `key` maps to, if it maps to one.
#[verifier::external_body]
pub(crate) fn object_get<'a>(m: &'a Object, key: &str) -> (r: Option<&'a serde_json::Value>)
    ensures
        r is Some <==> object_view(*m).contains_key(key@),
        r matches Some(v) ==> json_view(*v) == object_view(*m)[key@],
{
    m.get(key)
}

} // verus!
