//! Type inference for the text of one value.

use crate::json::{is_enclosed, json_value, parse_json, Enclosure};
use crate::finite::{finite_number, is_finite_number};
use crate::number::{integer_of, is_digit, is_number_syntax, parse_integer};
use crate::text::{chars_of, string_of};
use crate::value::{well_formed, TypedValue, ValueView};
use vstd::prelude::*;

verus! {

/// `s` without any occurrence of `c`.
pub open spec fn without(s: Seq<char>, c: char) -> Seq<char>
    decreases s.len(),
{
    if s.len() == 0 {
        s
    } else if s.last() == c {
        without(s.drop_last(), c)
    } else {
        without(s.drop_last(), c).push(s.last())
    }
}

/// `s` with every single quote turned into a double quote.
pub open spec fn requoted(s: Seq<char>) -> Seq<char> {
    Seq::new(s.len(), |i: int| if s[i] == '\'' { '"' } else { s[i] })
}

/// The value that a scalar text denotes. With `parse_numbers`, a text that
/// writes an integer in the range of `i64` is that integer, and any other
/// floating-point literal within the range of a double is a `Float`. With
/// or without it, `true` and `false` are booleans and `null` is `Null`. Any
/// other text is a string.
pub open spec fn scalar_value(text: Seq<char>, parse_numbers: bool) -> ValueView {
    if parse_numbers && integer_of(text) is Some {
        ValueView::Integer(integer_of(text)->0)
    } else if parse_numbers && is_finite_number(text) {
        ValueView::Float(text)
    } else if text == "true"@ {
        ValueView::Boolean(true)
    } else if text == "false"@ {
        ValueView::Boolean(false)
    } else if text == "null"@ {
        ValueView::Null
    } else {
        ValueView::String(text)
    }
}

/// What a reading of a document comes to: the value read, or `Null` where
/// there was none.
pub open spec fn value_or_null(read: Option<ValueView>) -> ValueView {
    match read {
        Some(value) => value,
        None => ValueView::Null,
    }
}

/// The value that an enclosed text denotes: what it writes as JSON; where it
/// is no JSON, what it writes as JSON once its single quotes are double
/// quotes; `Null` where that is no JSON either.
pub open spec fn nested_value(text: Seq<char>) -> ValueView {
    match json_value(text) {
        Some(value) => value,
        None => value_or_null(json_value(requoted(text))),
    }
}

/// The typed value of the text of one field: an enclosed text is read as a
/// nested value; any other is read as a scalar, after every double quote
/// has been taken out of it.
pub open spec fn decoded_value(text: Seq<char>, parse_numbers: bool) -> ValueView {
    if is_enclosed(text) {
        nested_value(text)
    } else {
        scalar_value(without(text, '"'), parse_numbers)
    }
}

/// A text in which `c` does not occur stays as it is when `c` is taken out.
proof fn lemma_without_absent(s: Seq<char>, c: char)
    requires
        !s.contains(c),
    ensures
        without(s, c) == s,
    decreases s.len(),
{
    if s.len() > 0 {
        let front = s.drop_last();
        assert forall|k: int| 0 <= k < front.len() implies front[k] != c by {
            assert(front[k] == s[k]);
        }
        lemma_without_absent(front, c);
    }
}

/// Where numbers are not parsed, a scalar text is a boolean, `Null` or
/// itself as a string, and never a number.
pub proof fn lemma_numbers_stay_strings(text: Seq<char>)
    ensures
        scalar_value(text, false) == (if text == "true"@ {
            ValueView::Boolean(true)
        } else if text == "false"@ {
            ValueView::Boolean(false)
        } else if text == "null"@ {
            ValueView::Null
        } else {
            ValueView::String(text)
        }),
        !(scalar_value(text, false) is Integer),
        !(scalar_value(text, false) is Float),
{
}

/// The text `null` is `Null`, whether numbers are parsed or not.
pub proof fn lemma_null_is_null(parse_numbers: bool)
    ensures
        decoded_value("null"@, parse_numbers) == ValueView::Null,
{
    reveal_strlit("null");
    reveal_strlit("true");
    reveal_strlit("false");
    let text = "null"@;
    assert(!is_enclosed(text));
    lemma_without_absent(text, '"');
    assert(integer_of(text) is None) by {
        assert(!is_digit(text[0]));
    }
    assert(!is_number_syntax(text)) by {
        assert(text.skip(0) =~= text);
    }
    assert(text != "true"@ && text != "false"@);
}

/// `chars` without any occurrence of `c`.
pub fn remove_char(chars: &Vec<char>, c: char) -> (out: Vec<char>)
    ensures
        out@ == without(chars@, c),
{
    let mut out: Vec<char> = Vec::new();
    let mut i: usize = 0;
    while i < chars.len()
        invariant
            i <= chars.len(),
            out@ == without(chars@.take(i as int), c),
        decreases chars.len() - i,
    {
        proof {
            assert(chars@.take(i + 1).drop_last() =~= chars@.take(i as int));
        }
        if chars[i] != c {
            out.push(chars[i]);
        }
        i += 1;
    }
    assert(chars@.take(i as int) =~= chars@);
    out
}

/// `chars` with every single quote turned into a double quote.
pub fn requote(chars: &Vec<char>) -> (out: Vec<char>)
    ensures
        out@ == requoted(chars@),
{
    let mut out: Vec<char> = Vec::new();
    let mut i: usize = 0;
    while i < chars.len()
        invariant
            i <= chars.len(),
            out.len() == i,
            forall|k: int| 0 <= k < i ==> out@[k] == requoted(chars@)[k],
        decreases chars.len() - i,
    {
        let c = chars[i];
        out.push(if c == '\'' { '"' } else { c });
        i += 1;
    }
    out
}

/// Whether `chars` spells `word`.
pub fn spells(chars: &Vec<char>, word: &str) -> (res: bool)
    ensures
        res == (chars@ == word@),
{
    let letters = chars_of(word);
    if letters.len() != chars.len() {
        return false;
    }
    let mut i: usize = 0;
    while i < chars.len()
        invariant
            i <= chars.len(),
            letters.len() == chars.len(),
            letters@ == word@,
            forall|k: int| 0 <= k < i ==> chars@[k] == letters@[k],
        decreases chars.len() - i,
    {
        if chars[i] != letters[i] {
            return false;
        }
        i += 1;
    }
    assert(chars@ =~= letters@);
    true
}

/// The value that the scalar text `chars` denotes.
pub fn scalar_of(chars: &Vec<char>, parse_numbers: bool) -> (value: TypedValue)
    ensures
        value@ == scalar_value(chars@, parse_numbers),
{
    if parse_numbers {
        if let Some(integer) = parse_integer(chars) {
            return TypedValue::Integer(integer);
        }
        if finite_number(chars) {
            return TypedValue::Float(string_of(chars));
        }
    }
    if spells(chars, "true") {
        TypedValue::Boolean(true)
    } else if spells(chars, "false") {
        TypedValue::Boolean(false)
    } else if spells(chars, "null") {
        TypedValue::Null
    } else {
        TypedValue::String(string_of(chars))
    }
}

/// The value that the scalar `text` denotes.
pub fn decode_scalar(text: &str, parse_numbers: bool) -> (value: TypedValue)
    ensures
        value@ == scalar_value(text@, parse_numbers),
{
    scalar_of(&chars_of(text), parse_numbers)
}

/// What a reading of a document comes to: the value read, or `Null` where
/// there was none.
pub fn nested_or_null(read: Option<TypedValue>) -> (value: TypedValue)
    ensures
        value@ == value_or_null(
            match read {
                Some(v) => Some(v@),
                None => None,
            },
        ),
        read matches Some(v) ==> value == v,
{
    match read {
        Some(value) => value,
        None => TypedValue::Null,
    }
}

/// The value that the enclosed `text` denotes.
pub fn decode_nested(text: &str) -> (value: TypedValue)
    ensures
        value@ == nested_value(text@),
        well_formed(value@),
{
    match parse_json(text) {
        Some(value) => value,
        None => {
            let lenient = string_of(&requote(&chars_of(text)));
            nested_or_null(parse_json(lenient.as_str()))
        },
    }
}

/// The typed value of the text of one field, with a test for enclosed
/// texts that the caller has at hand.
pub fn decode_with(enclosure: &Enclosure, text: &str, parse_numbers: bool) -> (value: TypedValue)
    ensures
        value@ == decoded_value(text@, parse_numbers),
        well_formed(value@),
{
    if enclosure.matches(text) {
        decode_nested(text)
    } else {
        let plain = remove_char(&chars_of(text), '"');
        scalar_of(&plain, parse_numbers)
    }
}

/// The typed value of the text of one field. The test for enclosed texts is
/// compiled for this one call; [`decode_with`] takes one that is at hand.
pub fn decode_value(text: &str, parse_numbers: bool) -> (value: TypedValue)
    ensures
        value@ == decoded_value(text@, parse_numbers),
        well_formed(value@),
{
    decode_with(&Enclosure::new(), text, parse_numbers)
}

} // verus!
