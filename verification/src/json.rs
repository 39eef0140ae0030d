//! JSON values, as `serde_json` parses them.
//!
//! A value is not looked into here: it is read through the functions of
//! `serde_json`, and what is known of it is what those functions are trusted
//! to return.

use vstd::prelude::*;

verus! {

/// A JSON value of `serde_json`.
#[verifier::external_type_specification]
#[verifier::external_body]
pub struct ExJsonValue(serde_json::Value);

/// The error of `serde_json` for a text that is no JSON.
#[verifier::external_type_specification]
#[verifier::external_body]
pub struct ExJsonError(serde_json::Error);

/// The value that a text stands for; none for a text that is no JSON.
pub uninterp spec fn json_parsed(text: Seq<char>) -> Option<serde_json::Value>;

/// The elements of a value that is an array; none for any other value.
pub uninterp spec fn json_array(v: serde_json::Value) -> Option<Seq<serde_json::Value>>;

/// The characters of a value that is a string; none for any other value.
pub uninterp spec fn json_string(v: serde_json::Value) -> Option<Seq<char>>;

/// The number that a value is, where it is a whole number from 0 to the
/// greatest `u64`; none for any other value.
pub uninterp spec fn json_number(v: serde_json::Value) -> Option<u64>;

/// The value is `null`.
pub uninterp spec fn json_null(v: serde_json::Value) -> bool;

/// The member of that name, where the value is an object that has one; none
/// for any other value.
pub uninterp spec fn json_member(v: serde_json::Value, name: Seq<char>) -> Option<
    serde_json::Value,
>;

/// The members of a value that is an object, each with its name, in the
/// order of the object; none for any other value.
pub uninterp spec fn json_members(v: serde_json::Value) -> Option<
    Seq<(Seq<char>, serde_json::Value)>,
>;

/// What a list of references to members stands for.
pub open spec fn member_views(members: Seq<(&String, &serde_json::Value)>) -> Seq<
    (Seq<char>, serde_json::Value),
> {
    Seq::new(members.len(), |i: int| (members[i].0@, *members[i].1))
}

/// Calls `serde_json::from_str` for a `Value`. Trusted: whether the text
/// parses, and the value it parses into, depend on the text alone.
#[verifier::external_body]
pub(crate) fn json_parse(text: &str) -> (r: Result<serde_json::Value, serde_json::Error>)
    ensures
        match r {
            Ok(v) => json_parsed(text@) == Some(v),
            Err(_) => json_parsed(text@) is None,
        },
{
    serde_json::from_str::<serde_json::Value>(text)
}

/// Calls `serde_json::Value::as_array`. Trusted: the result is the vector of
/// the elements for an array, and none for any other value.
#[verifier::external_body]
pub(crate) fn json_elements(v: &serde_json::Value) -> (r: Option<&Vec<serde_json::Value>>)
    ensures
        match r {
            Some(a) => json_array(*v) == Some(a@),
            None => json_array(*v) is None,
        },
{
    v.as_array()
}

/// Calls `serde_json::Value::as_str`. Trusted: the result is the text of a
/// string, and none for any other value.
#[verifier::external_body]
pub(crate) fn json_text(v: &serde_json::Value) -> (r: Option<&str>)
    ensures
        match r {
            Some(s) => json_string(*v) == Some(s@),
            None => json_string(*v) is None,
        },
{
    v.as_str()
}

/// Calls `serde_json::Value::as_u64`. Trusted: the result is the number for
/// a whole number that fits, and none for any other value.
#[verifier::external_body]
pub(crate) fn json_unsigned(v: &serde_json::Value) -> (r: Option<u64>)
    ensures
        r == json_number(*v),
{
    v.as_u64()
}

/// Calls `serde_json::Value::is_null`. Trusted: the result says whether the
/// value is `null`.
#[verifier::external_body]
pub(crate) fn json_is_null(v: &serde_json::Value) -> (r: bool)
    ensures
        r == json_null(*v),
{
    v.is_null()
}

/// Calls `serde_json::Value::get` with a name. Trusted: the result is the
/// member of that name for an object that has one, and none else.
#[verifier::external_body]
pub(crate) fn json_field<'a>(v: &'a serde_json::Value, name: &str) -> (r: Option<
    &'a serde_json::Value,
>)
    ensures
        match r {
            Some(m) => json_member(*v, name@) == Some(*m),
            None => json_member(*v, name@) is None,
        },
{
    v.get(name)
}

/// Calls `serde_json::Value::as_object` and `serde_json::Map::iter`.
/// Trusted: the result lists the members of an object in the object's order,
/// and is none for any other value.
#[verifier::external_body]
pub(crate) fn json_entries(v: &serde_json::Value) -> (r: Option<
    Vec<(&String, &serde_json::Value)>,
>)
    ensures
        match r {
            Some(members) => json_members(*v) == Some(member_views(members@)),
            None => json_members(*v) is None,
        },
{
    v.as_object().map(|members| members.iter().collect())
}

/// Calls `clone` of `serde_json::Value`. Trusted: the copy is the value.
#[verifier::external_body]
pub(crate) fn json_copy(v: &serde_json::Value) -> (r: serde_json::Value)
    ensures
        r == *v,
{
    v.clone()
}

} // verus!
