//! Values written as JSON text inside one field.

use crate::value::{well_formed, TypedValue, ValueView};
use vstd::prelude::*;

verus! {

/// The pattern of a text that is enclosed in square brackets or in braces.
pub const ENCLOSURE_PATTERN: &'static str = "(^\\[.*\\]$|^\\{.*\\}$)";

/// Whether `text` is enclosed as a whole: it begins with `[` and ends with
/// `]`, or begins with `{` and ends with `}`, and holds no line feed between
/// the two.
pub open spec fn is_enclosed(text: Seq<char>) -> bool {
    &&& text.len() >= 2
    &&& (text.first() == '[' && text.last() == ']') || (text.first() == '{' && text.last() == '}')
    &&& forall|i: int| 0 < i < text.len() - 1 ==> text[i] != '\n'
}

/// A compiled regular expression of the `regex` crate.
#[verifier::external_type_specification]
#[verifier::external_body]
pub struct ExRegex(regex::Regex);

/// The pattern that a compiled expression was made from.
pub uninterp spec fn pattern_of(expression: regex::Regex) -> Seq<char>;

/// `regex::Regex::new`, for the one pattern [`ENCLOSURE_PATTERN`], which
/// compiles: the expression made from `pattern`.
#[verifier::external_body]
pub(crate) fn compile(pattern: &str) -> (expression: regex::Regex)
    requires
        pattern@ == ENCLOSURE_PATTERN@,
    ensures
        pattern_of(expression) == pattern@,
{
    regex::Regex::new(pattern).unwrap()
}

/// `regex::Regex::is_match`: whether the expression matches somewhere in
/// `text`. Stated for [`ENCLOSURE_PATTERN`] alone: its two alternatives are
/// anchored at both ends of the text, and the `.` between the brackets
/// stands for any character but a line feed.
#[verifier::external_body]
pub(crate) fn is_match(expression: &regex::Regex, text: &str) -> (res: bool)
    ensures
        pattern_of(*expression) == ENCLOSURE_PATTERN@ ==> res == is_enclosed(text@),
{
    expression.is_match(text)
}

/// The test for enclosed texts, compiled once and used for many texts.
pub struct Enclosure {
    expression: regex::Regex,
}

impl Enclosure {
    /// The pattern that the test was compiled from.
    pub closed spec fn pattern(&self) -> Seq<char> {
        pattern_of(self.expression)
    }

    #[verifier::type_invariant]
    spec fn holds_the_pattern(self) -> bool {
        self.pattern() == ENCLOSURE_PATTERN@
    }

    /// Compiles the test from [`ENCLOSURE_PATTERN`].
    pub fn new() -> (made: Self)
        ensures
            made.pattern() == ENCLOSURE_PATTERN@,
    {
        Enclosure { expression: compile(ENCLOSURE_PATTERN) }
    }

    /// Whether `text` is enclosed in square brackets or in braces.
    pub fn matches(&self, text: &str) -> (res: bool)
        ensures
            res == is_enclosed(text@),
    {
        proof {
            use_type_invariant(self);
        }
        is_match(&self.expression, text)
    }
}

/// What `serde_json::from_str` reads from `text`: the value that the JSON
/// document `text` writes, or `None` where `text` is no JSON document.
pub uninterp spec fn json_value(text: Seq<char>) -> Option<ValueView>;

/// A JSON document of the `serde_json` crate.
#[verifier::external_type_specification]
#[verifier::external_body]
pub struct ExJsonValue(serde_json::Value);

/// What a `serde_json::Value` holds. A number that is an integer in the
/// range of `i64` is an `Integer`; any other number is a `Float` with the
/// literal that `serde_json` prints for it.
pub uninterp spec fn json_tree(document: serde_json::Value) -> ValueView;

/// `serde_json::from_str` at the type `serde_json::Value`: reads `text` as
/// one JSON document. An object of the result has each key once.
#[verifier::external_body]
pub(crate) fn read_json(text: &str) -> (res: Option<serde_json::Value>)
    ensures
        res is Some <==> json_value(text@) is Some,
        res matches Some(document) ==> json_value(text@) == Some(json_tree(document))
            && well_formed(json_tree(document)),
{
    serde_json::from_str::<serde_json::Value>(text).ok()
}

/// Takes a `serde_json::Value` apart, variant by variant, with
/// `Number::as_i64` and `Number::to_string` for its numbers.
#[verifier::external_body]
pub(crate) fn from_json(document: serde_json::Value) -> (value: TypedValue)
    ensures
        value@ == json_tree(document),
{
    match document {
        serde_json::Value::Null => TypedValue::Null,
        serde_json::Value::Bool(b) => TypedValue::Boolean(b),
        serde_json::Value::Number(n) => match n.as_i64() {
            Some(i) => TypedValue::Integer(i),
            None => TypedValue::Float(n.to_string()),
        },
        serde_json::Value::String(s) => TypedValue::String(s),
        serde_json::Value::Array(a) => TypedValue::Array(a.into_iter().map(from_json).collect()),
        serde_json::Value::Object(m) => TypedValue::Object(
            m.into_iter().map(|(k, v)| (k, from_json(v))).collect(),
        ),
    }
}

/// The value that the JSON document `text` writes.
pub fn parse_json(text: &str) -> (res: Option<TypedValue>)
    ensures
        res is Some <==> json_value(text@) is Some,
        res matches Some(value) ==> json_value(text@) == Some(value@) && well_formed(value@),
{
    match read_json(text) {
        Some(document) => Some(from_json(document)),
        None => None,
    }
}

/// Whether `text` is enclosed in square brackets or in braces. The test
/// is compiled for this one call; an [`Enclosure`] serves many.
pub fn enclosed(text: &str) -> (res: bool)
    ensures
        res == is_enclosed(text@),
{
    Enclosure::new().matches(text)
}

} // verus!
