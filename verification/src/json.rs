//! What is looked up in JSON texts.

use vstd::prelude::*;

use crate::model::text_of;
use crate::number::{i64_of, parse_i64};
use crate::text::chars_of;

verus! {

/// A value of a JSON text, as far as it is looked at.
#[derive(Debug, PartialEq)]
pub enum Field {
    Text(String),
    /// A number: how it is written, and its value where it is an integer.
    Number(String, Option<i64>),
    Object,
    /// Anything else: an array, a truth value, or nothing.
    Other,
}

/// What a [`Field`] stands for.
pub enum FieldView {
    Text(Seq<char>),
    Number(Seq<char>, Option<i64>),
    Object,
    Other,
}

impl View for Field {
    type V = FieldView;

    open spec fn view(&self) -> FieldView {
        match self {
            Field::Text(s) => FieldView::Text(s@),
            Field::Number(s, n) => FieldView::Number(s@, *n),
            Field::Object => FieldView::Object,
            Field::Other => FieldView::Other,
        }
    }
}

/// What an optional field stands for.
pub open spec fn field_view(field: Option<Field>) -> Option<FieldView> {
    match field {
        Some(field) => Some(field@),
        None => None,
    }
}

/// What an optional list of fields stands for.
pub open spec fn fields_view(fields: Option<Vec<Field>>) -> Option<Seq<FieldView>> {
    match fields {
        Some(fields) => Some(crate::model::views(fields@)),
        None => None,
    }
}

/// Why a text is not JSON; `None` where it is.
pub uninterp spec fn json_problem_of(text: Seq<char>) -> Option<Seq<char>>;

/// The value that a pointer addresses in a JSON text.
pub uninterp spec fn json_field(text: Seq<char>, pointer: Seq<char>) -> Option<FieldView>;

/// The values of the array that a pointer addresses in a JSON text.
pub uninterp spec fn json_list(text: Seq<char>, pointer: Seq<char>) -> Option<Seq<FieldView>>;

/// `serde_json::from_str`: whether a text is JSON, and if not, what the error says.
/// It depends on the text alone; the grammar is left to the serde_json crate.
#[verifier::external_body]
pub(crate) fn json_problem(text: &str) -> (r: Option<String>)
    ensures
        text_of(r) == json_problem_of(text@),
{
    serde_json::from_str::<serde_json::Value>(text).err().map(|e| e.to_string())
}

/// `serde_json::Value::pointer` on the parsed text: the value at a JSON pointer.
/// It depends on the text and the pointer alone, and there is none in a text that
/// is not JSON.
#[verifier::external_body]
pub(crate) fn look_up(text: &str, pointer: &str) -> (r: Option<Field>)
    ensures
        field_view(r) == json_field(text@, pointer@),
        json_problem_of(text@) is Some ==> r is None,
{
    let root: serde_json::Value = serde_json::from_str(text).ok()?;
    root.pointer(pointer).map(|value| match value {
        serde_json::Value::String(s) => Field::Text(s.clone()),
        serde_json::Value::Number(n) => Field::Number(n.to_string(), n.as_i64()),
        serde_json::Value::Object(_) => Field::Object,
        _ => Field::Other,
    })
}

/// `serde_json::Value::as_array` on the value at a JSON pointer: its elements, in
/// order. They depend on the text and the pointer alone, and there are none where
/// the text is not JSON or the value is no array.
#[verifier::external_body]
pub(crate) fn look_up_list(text: &str, pointer: &str) -> (r: Option<Vec<Field>>)
    ensures
        fields_view(r) == json_list(text@, pointer@),
        json_problem_of(text@) is Some ==> r is None,
        json_field(text@, pointer@) != Some(FieldView::Other) ==> r is None,
{
    let root: serde_json::Value = serde_json::from_str(text).ok()?;
    let items = root.pointer(pointer)?.as_array()?;
    Some(items.iter().map(|value| match value {
        serde_json::Value::String(s) => Field::Text(s.clone()),
        serde_json::Value::Number(n) => Field::Number(n.to_string(), n.as_i64()),
        serde_json::Value::Object(_) => Field::Object,
        _ => Field::Other,
    }).collect())
}

impl FieldView {
    /// The text of a text or a number.
    pub open spec fn as_text(self) -> Option<Seq<char>> {
        match self {
            FieldView::Text(s) => Some(s),
            FieldView::Number(s, _) => Some(s),
            _ => None,
        }
    }

    /// The integer that a number is or that a text is a numeral of.
    pub open spec fn as_integer(self) -> Option<i64> {
        match self {
            FieldView::Number(_, n) => n,
            FieldView::Text(s) => i64_of(s),
            _ => None,
        }
    }
}

/// The text of a text or a number.
pub fn value_to_string(field: &Field) -> (r: Option<String>)
    ensures
        text_of(r) == field@.as_text(),
{
    match field {
        Field::Text(s) => Some(s.clone()),
        Field::Number(s, _) => Some(s.clone()),
        _ => None,
    }
}

/// The integer that a number is or that a text is a numeral of.
pub fn value_to_i64(field: &Field) -> (r: Option<i64>)
    ensures
        r == field@.as_integer(),
{
    match field {
        Field::Number(_, n) => *n,
        Field::Text(s) => parse_i64(&chars_of(s.as_str())),
        _ => None,
    }
}

} // verus!
