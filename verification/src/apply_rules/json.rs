//! Reading the properties of a rule, which are a JSON value.

use serde_json::Value;
use vstd::prelude::*;

verus! {

/// `serde_json::Value`, opaque to the verifier.
#[verifier::external_type_specification]
#[verifier::external_body]
pub struct ExValue(Value);

/// The member that a JSON value has under a key: that of an object which
/// holds the key, none for any other value.
pub uninterp spec fn json_member(value: Value, key: Seq<char>) -> Option<Value>;

/// The text of a JSON value that is a string, none for any other value.
pub uninterp spec fn json_text(value: Value) -> Option<Seq<char>>;

/// `serde_json::Value::get` with a string key: the member of `value` under
/// `key`.
#[verifier::external_body]
fn value_member<'a>(value: &'a Value, key: &str) -> (member: Option<&'a Value>)
    ensures
        member matches Some(found) ==> json_member(*value, key@) == Some(*found),
        member is None ==> json_member(*value, key@) is None,
{
    value.get(key)
}

/// `serde_json::Value::as_str`: the text of `value`.
#[verifier::external_body]
fn value_text<'a>(value: &'a Value) -> (text: Option<&'a str>)
    ensures
        text matches Some(found) ==> json_text(*value) == Some(found@),
        text is None ==> json_text(*value) is None,
{
    value.as_str()
}

/// What reading a member as text gives.
#[derive(Debug)]
pub enum Lookup {
    /// The value has no member under the key.
    Absent,
    /// The member is not a string.
    NotText,
    /// The member is this string.
    Text(String),
}

/// What reading a member as text gives, as specifications see it.
pub enum LookupView {
    Absent,
    NotText,
    Text(Seq<char>),
}

impl View for Lookup {
    type V = LookupView;

    open spec fn view(&self) -> LookupView {
        match self {
            Lookup::Absent => LookupView::Absent,
            Lookup::NotText => LookupView::NotText,
            Lookup::Text(text) => LookupView::Text(text@),
        }
    }
}

/// What reading the member of `value` under `key` as text gives.
pub open spec fn text_member_of(value: Value, key: Seq<char>) -> LookupView {
    match json_member(value, key) {
        None => LookupView::Absent,
        Some(member) => match json_text(member) {
            None => LookupView::NotText,
            Some(text) => LookupView::Text(text),
        },
    }
}

/// Reads the member of `value` under `key` as text.
pub fn text_member(value: &Value, key: &str) -> (lookup: Lookup)
    ensures
        lookup@ == text_member_of(*value, key@),
{
    match value_member(value, key) {
        None => Lookup::Absent,
        Some(member) => match value_text(member) {
            None => Lookup::NotText,
            Some(text) => Lookup::Text(text.to_owned()),
        },
    }
}

} // verus!
