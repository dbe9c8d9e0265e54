//! JSON text: parsing a text into a value and writing a value as text. Both
//! are the work of `serde_json`; what is believed of it is stated here.

use vstd::prelude::*;
use crate::json::{Json, JsonView, Member, Number, NumberView};

verus! {

/// `serde_json::Value`, which only passes through: nothing is said of what
/// it holds.
#[verifier::external_type_specification]
#[verifier::external_body]
pub struct ExValue(serde_json::Value);

/// The value that `serde_json::from_str` reads from a text as a
/// `serde_json::Value`, taken over variant by variant; `None` where it
/// reports an error.
pub uninterp spec fn parsed(text: Seq<char>) -> Option<JsonView>;

/// The text that `serde_json::to_string_pretty` writes for a value, handed
/// to it as a `serde_json::Value`.
pub uninterp spec fn rendered(doc: JsonView) -> Seq<char>;

/// The number that `str::parse` for a `serde_json::Number` reads from a
/// text, or `None` where it reports an error.
pub uninterp spec fn read_number(text: Seq<char>) -> Option<NumberView>;

/// The document that a text holds: the value that is read from it, if that
/// value is well formed.
pub open spec fn document_of(text: Seq<char>) -> Option<JsonView> {
    match parsed(text) {
        Some(doc) => if doc.wf() {
            Some(doc)
        } else {
            None
        },
        None => None,
    }
}

/// Turns a `serde_json::Value` that is a number into a `Number`: `as_u64`
/// and `as_i64` tell the integers apart, and `to_string` gives the text of
/// any other number. Nothing is claimed of the result.
#[verifier::external_body]
fn number_of(value: &serde_json::Value) -> Number {
    match (value.as_u64(), value.as_i64()) {
        (Some(n), _) => Number::PosInt(n),
        (_, Some(n)) => Number::NegInt(n),
        _ => Number::Float(value.to_string()),
    }
}

/// Turns a `serde_json::Value` into a `Json`, variant by variant; the members
/// of an object come in the order in which its `Map` hands them out.
/// Nothing is claimed of the result.
#[verifier::external_body]
fn json_of(value: &serde_json::Value) -> Json {
    match value {
        serde_json::Value::Null => Json::Null,
        serde_json::Value::Bool(b) => Json::Bool(*b),
        serde_json::Value::Number(_) => Json::Number(number_of(value)),
        serde_json::Value::String(s) => Json::String(s.clone()),
        serde_json::Value::Array(items) => Json::Array(items.iter().map(json_of).collect()),
        serde_json::Value::Object(map) => Json::Object(
            map.iter().map(|(k, v)| Member { key: k.clone(), value: json_of(v) }).collect(),
        ),
    }
}

/// Calls `str::parse` for a `serde_json::Number`. The claim: the outcome is
/// a function of the text alone, named `read_number`.
#[verifier::external_body]
pub(crate) fn parse_number(text: &str) -> (r: Option<Number>)
    ensures
        r matches Some(number) ==> read_number(text@) == Some(number@),
        r is None ==> read_number(text@) is None,
{
    match text.parse::<serde_json::Number>() {
        Ok(number) => Some(number_of(&serde_json::Value::Number(number))),
        Err(_) => None,
    }
}

/// Turns a `Number` into a `serde_json::Value`: an integer through
/// `Value::from`, any other number by parsing its text as a
/// `serde_json::Number`, with null where that fails. It fails for no number
/// that is well formed, since that is what being well formed says of a
/// `Float`. Nothing is claimed of the result.
#[verifier::external_body]
fn value_of_number(number: &Number) -> serde_json::Value {
    match number {
        Number::PosInt(n) => serde_json::Value::from(*n),
        Number::NegInt(n) => serde_json::Value::from(*n),
        Number::Float(text) => match text.parse::<serde_json::Number>() {
            Ok(n) => serde_json::Value::Number(n),
            Err(_) => serde_json::Value::Null,
        },
    }
}

/// Turns a `Json` into a `serde_json::Value`, variant by variant; the members
/// of an object are collected into its `Map`.
/// Nothing is claimed of the result.
#[verifier::external_body]
fn value_of(doc: &Json) -> serde_json::Value {
    match doc {
        Json::Null => serde_json::Value::Null,
        Json::Bool(b) => serde_json::Value::Bool(*b),
        Json::Number(n) => value_of_number(n),
        Json::String(s) => serde_json::Value::String(s.clone()),
        Json::Array(items) => serde_json::Value::Array(items.iter().map(value_of).collect()),
        Json::Object(members) => serde_json::Value::Object(
            members.iter().map(|m| (m.key.clone(), value_of(&m.value))).collect(),
        ),
    }
}

/// Calls `serde_json::from_str` for a `serde_json::Value`. The claim: the
/// outcome is a function of the text alone, named `parsed`.
#[verifier::external_body]
fn parse_text(text: &str) -> (r: Option<Json>)
    ensures
        r matches Some(doc) ==> parsed(text@) == Some(doc@),
        r is None ==> parsed(text@) is None,
{
    match serde_json::from_str::<serde_json::Value>(text) {
        Ok(value) => Some(json_of(&value)),
        Err(_) => None,
    }
}

/// Calls `serde_json::to_string_pretty` on the `serde_json::Value` of a
/// document. The claim: the text is a function of the document alone, named
/// `rendered`. Writing a `serde_json::Value` does not fail; were it to, the
/// text would be empty.
#[verifier::external_body]
fn render_text(doc: &Json) -> (r: String)
    ensures
        r@ == rendered(doc@),
{
    serde_json::to_string_pretty(&value_of(doc)).unwrap_or_default()
}

impl Json {
    /// Reads a document from JSON text; `None` where the text is not JSON.
    /// What is read is well formed: the members of every object stand in the
    /// order of their keys, as the parser hands them out, and this is tested
    /// before the document is given out.
    pub fn parse(text: &str) -> (r: Option<Json>)
        ensures
            match r {
                Some(doc) => document_of(text@) == Some(doc@) && doc@.wf(),
                None => document_of(text@) is None,
            },
    {
        match parse_text(text) {
            Some(doc) => if doc.is_well_formed() {
                Some(doc)
            } else {
                None
            },
            None => None,
        }
    }

    /// Whether the text written for the value is read back as the value.
    pub fn survives_text(&self) -> (r: bool)
        ensures
            r == (document_of(rendered(self@)) == Some(self@)),
    {
        let text = self.to_pretty_text();
        match Json::parse(text.as_str()) {
            Some(back) => back.same(self),
            None => false,
        }
    }

    /// Writes the value as indented JSON text.
    pub fn to_pretty_text(&self) -> (r: String)
        ensures
            r@ == rendered(self@),
    {
        render_text(self)
    }
}

} // verus!
