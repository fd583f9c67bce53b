//! JSON values as the library reads and writes them.
//!
//! Parsing and printing are serde_json's. Of a value the library knows the
//! members of the outermost object: their keys, and what each of them holds, as
//! a text where it is a string and in print where it is anything else.
use vstd::prelude::*;
use crate::text;

verus! {

/// serde_json's value.
#[verifier::external_type_specification]
#[verifier::external_body]
pub struct ExValue(serde_json::Value);

/// The value that `serde_json::from_str` reads from a text, if it reads one.
pub uninterp spec fn json_of(text: Seq<char>) -> Option<serde_json::Value>;

/// What a value holds.
pub enum Member {
    /// A string: what `as_str` gives.
    Text(Seq<char>),
    /// Anything else: what `to_string` prints.
    Printed(Seq<char>),
}

/// What a value holds.
pub uninterp spec fn value_of(v: serde_json::Value) -> Member;

/// The members of an object: each key with what its value holds. A value that
/// is no object has none.
pub uninterp spec fn members(v: serde_json::Value) -> Map<Seq<char>, Member>;

/// The members of an object whose values are lists of strings.
pub uninterp spec fn list_members(v: serde_json::Value) -> Map<Seq<char>, Seq<Seq<char>>>;

/// Whether a value is an object.
pub uninterp spec fn is_object(v: serde_json::Value) -> bool;

/// Whether a value is null.
pub uninterp spec fn is_null(v: serde_json::Value) -> bool;

/// The text that `serde_json::to_string_pretty` writes for a value.
pub uninterp spec fn pretty_of(v: serde_json::Value) -> Seq<char>;

/// The members of an empty object.
pub open spec fn no_members() -> Map<Seq<char>, Member> {
    Map::empty()
}

/// Two objects have the same keys, and the same strings under them.
pub open spec fn same_texts(a: Map<Seq<char>, Member>, b: Map<Seq<char>, Member>) -> bool {
    &&& a.dom() == b.dom()
    &&& forall|k: Seq<char>|
        a.contains_key(k) ==> (#[trigger] a[k] is Text <==> b[k] is Text) && (a[k] is Text ==> b[k]
            == a[k])
}

/// What the string member `key` of an object holds.
pub open spec fn member_text(v: serde_json::Value, key: Seq<char>) -> Option<Seq<char>> {
    if members(v).contains_key(key) {
        match members(v)[key] {
            Member::Text(s) => Some(s),
            Member::Printed(_) => None,
        }
    } else {
        None
    }
}

/// `serde_json::from_str`: a function of the text alone. What the message of
/// an error says is left open.
#[verifier::external_body]
pub(crate) fn parse(text: &str) -> (r: Result<serde_json::Value, String>)
    ensures
        r is Ok <==> json_of(text@) is Some,
        r matches Ok(v) ==> json_of(text@) == Some(v),
{
    serde_json::from_str::<serde_json::Value>(text).map_err(|e| e.to_string())
}

/// `Value::get` with a key, then `Value::as_str`: the string member of that
/// key. A value that is no object has no members.
#[verifier::external_body]
pub(crate) fn string_member(v: &serde_json::Value, key: &str) -> (r: Option<String>)
    ensures
        text::opt(r) == member_text(*v, key@),
{
    v.get(key)?.as_str().map(|s| s.to_string())
}

/// `Value::get` with a key, then `serde_json::from_value` into a list of
/// strings: the member of that key, where it is one.
#[verifier::external_body]
pub(crate) fn list_member(v: &serde_json::Value, key: &str) -> (r: Option<Vec<String>>)
    ensures
        r is Some <==> list_members(*v).contains_key(key@),
        r matches Some(list) ==> text::views(list@) == list_members(*v)[key@],
{
    v.get(key).cloned().and_then(|t| serde_json::from_value::<Vec<String>>(t).ok())
}

/// `Value::Object` of an empty `serde_json::Map`.
#[verifier::external_body]
pub(crate) fn empty_object() -> (r: serde_json::Value)
    ensures
        is_object(r),
        members(r) == no_members(),
{
    serde_json::Value::Object(serde_json::Map::new())
}

/// `Value::String`.
#[verifier::external_body]
pub(crate) fn string(s: &str) -> (r: serde_json::Value)
    ensures
        value_of(r) == Member::Text(s@),
{
    serde_json::Value::String(s.to_string())
}

/// `Value::is_null`: null is no object.
#[verifier::external_body]
pub(crate) fn null(v: &serde_json::Value) -> (r: bool)
    ensures
        r == is_null(*v),
        r ==> !is_object(*v),
{
    v.is_null()
}

/// `Value::as_object_mut`, then `Map::insert`: sets one member of an object and
/// leaves the others; a value that is no object stays as it is. Tells whether
/// it was an object.
#[verifier::external_body]
pub(crate) fn put(v: &mut serde_json::Value, key: &str, x: serde_json::Value) -> (r: bool)
    ensures
        r == is_object(*old(v)),
        r ==> is_object(*final(v)) && members(*final(v)) == members(*old(v)).insert(
            key@,
            value_of(x),
        ),
        !r ==> *final(v) == *old(v),
{
    match v.as_object_mut() {
        Some(map) => {
            map.insert(key.to_string(), x);
            true
        },
        None => false,
    }
}

/// `Value::as_object_mut`, then `Map::remove`: takes one member out of an
/// object and leaves the others; a value that is no object stays as it is.
#[verifier::external_body]
pub(crate) fn take_out(v: &mut serde_json::Value, key: &str)
    ensures
        is_object(*final(v)) == is_object(*old(v)),
        members(*final(v)) == members(*old(v)).remove(key@),
{
    if let Some(map) = v.as_object_mut() {
        map.remove(key);
    }
}

/// `serde_json::to_string_pretty`: a value of serde_json's own can always be
/// written, for its keys are strings and its numbers finite, and the text is a
/// function of the value. Where it can be read back, the value read is an object
/// with the same keys and the same strings, or none, as the value was. That it
/// can be read back is not said: `serde_json::from_str` refuses very deep
/// nesting. Nor is it said that a number is read back to its last digit: reading
/// a fraction may round it.
#[verifier::external_body]
pub(crate) fn pretty(v: &serde_json::Value) -> (r: Result<String, String>)
    ensures
        r is Ok,
        r matches Ok(t) ==> t@ == pretty_of(*v),
        r matches Ok(t) ==> (json_of(t@) matches Some(w) ==> is_object(w) == is_object(*v)
            && same_texts(members(*v), members(w))),
{
    serde_json::to_string_pretty(v).map_err(|e| e.to_string())
}

} // verus!
