use fast_query_parsers::decode::{scalar_of, spells};
use fast_query_parsers::json::Enclosure;
use fast_query_parsers::magnitude::{digits_only, pad_zeros, scaled_ge, strip_zeros};
use fast_query_parsers::number::digit;
use fast_query_parsers::query_string::decode_pair;
use fast_query_parsers::segment::{replace_plus, split_segments};
use fast_query_parsers::text::chars_of;
use fast_query_parsers::TypedValue;

fn chars(text: &str) -> Vec<char> {
    text.chars().collect()
}

#[test]
fn characters_come_in_order() {
    assert_eq!(chars_of(""), chars(""));
    assert_eq!(chars_of("a\u{e9}\u{1f600}b"), vec!['a', '\u{e9}', '\u{1f600}', 'b']);
}

#[test]
fn every_plus_becomes_a_space() {
    assert_eq!(replace_plus(&chars("a+b++c")), chars("a b  c"));
    assert_eq!(replace_plus(&chars("%2B")), chars("%2B"));
    assert_eq!(replace_plus(&chars("")), chars(""));
}

#[test]
fn segments_are_the_non_empty_pieces() {
    assert_eq!(
        split_segments(&chars("a&&b=c&"), '&'),
        vec![chars("a"), chars("b=c")]
    );
    assert_eq!(split_segments(&chars("&&&"), '&'), Vec::<Vec<char>>::new());
    assert_eq!(split_segments(&chars(""), '&'), Vec::<Vec<char>>::new());
    assert_eq!(split_segments(&chars("abc"), '&'), vec![chars("abc")]);
    assert_eq!(
        split_segments(&chars(";a;b"), ';'),
        vec![chars("a"), chars("b")]
    );
}

#[test]
fn a_segment_splits_at_its_first_equals_sign() {
    let pair = |key: &str, value: &str| (String::from(key), String::from(value));
    assert_eq!(decode_pair(&chars("a=b")), pair("a", "b"));
    assert_eq!(decode_pair(&chars("a=b=c")), pair("a", "b=c"));
    assert_eq!(decode_pair(&chars("a")), pair("a", ""));
    assert_eq!(decode_pair(&chars("a=")), pair("a", ""));
    assert_eq!(decode_pair(&chars("=b")), pair("", "b"));
    assert_eq!(decode_pair(&chars("=")), pair("", ""));
    assert_eq!(decode_pair(&chars("%61=%62")), pair("a", "b"));
    assert_eq!(decode_pair(&chars("a%3D=b")), pair("a=", "b"));
    assert_eq!(decode_pair(&chars("a=%ff")), pair("a=%ff", ""));
    assert_eq!(decode_pair(&chars("%ff=a")), pair("%ff=a", ""));
    assert_eq!(decode_pair(&chars("%ff")), pair("%ff", ""));
    assert_eq!(decode_pair(&chars("%41=%ff=%42")), pair("%41=%ff=%42", ""));
}

#[test]
fn words_are_spelled_letter_by_letter() {
    assert!(spells(&chars("true"), "true"));
    assert!(!spells(&chars("tru"), "true"));
    assert!(!spells(&chars("trup"), "true"));
    assert!(spells(&chars(""), ""));
    assert!(!spells(&chars("a"), ""));
}

#[test]
fn digits_and_letters() {
    assert!(digit('0') && digit('5') && digit('9'));
    assert!(!digit('/') && !digit(':') && !digit('a') && !digit('\u{661}'));
}

#[test]
fn digits_are_compared_as_numbers() {
    assert!(scaled_ge(&chars("123"), 0, &chars("123"), 0));
    assert!(scaled_ge(&chars("124"), 0, &chars("123"), 0));
    assert!(!scaled_ge(&chars("123"), 0, &chars("124"), 0));
    assert!(scaled_ge(&chars("200"), 0, &chars("199"), 0));
    assert!(scaled_ge(&chars(""), 0, &chars(""), 0));
    assert!(!scaled_ge(&chars("12a"), 0, &chars("1"), 0));
    assert!(!scaled_ge(&chars("12"), 0, &chars("-1"), 0));
    assert!(!scaled_ge(&chars("12"), u128::MAX, &chars("1"), 0));
    assert!(!scaled_ge(&chars("12"), 0, &chars("1"), (1 << 112) + 1));
    assert!(scaled_ge(&chars("12"), 1 << 112, &chars("1"), 1 << 112));
    assert!(digits_only(&chars("0123456789")) && digits_only(&chars("")));
    assert!(!digits_only(&chars("12 ")) && !digits_only(&chars("+1")));
    assert_eq!(strip_zeros(&chars("000120")), chars("120"));
    assert_eq!(strip_zeros(&chars("000")), chars(""));
    assert_eq!(strip_zeros(&chars("7")), chars("7"));
    assert_eq!(pad_zeros(chars("12"), 3), chars("12000"));
    assert_eq!(pad_zeros(chars(""), 0), chars(""));
}

#[test]
fn scaled_numbers_are_compared_exactly() {
    for a in 0u64..60 {
        for places_a in 0u32..4 {
            for b in 0u64..60 {
                for places_b in 0u32..4 {
                    let expected = a * 10u64.pow(places_a) >= b * 10u64.pow(places_b);
                    for (left, right) in [
                        (a.to_string(), b.to_string()),
                        (format!("00{}", a), format!("0{}", b)),
                    ] {
                        assert_eq!(
                            scaled_ge(
                                &chars(&left),
                                places_a as u128,
                                &chars(&right),
                                places_b as u128
                            ),
                            expected,
                            "{} {} {} {}",
                            a,
                            places_a,
                            b,
                            places_b
                        );
                    }
                }
            }
        }
    }
    assert!(scaled_ge(&chars("1"), 1 << 100, &chars("9"), (1 << 100) - 1));
    assert!(!scaled_ge(&chars("9"), (1 << 100) - 1, &chars("1"), 1 << 100));
    assert!(scaled_ge(&chars("10"), (1 << 100) - 1, &chars("1"), 1 << 100));
    assert!(scaled_ge(&chars(""), 5, &chars("000"), 7));
    assert!(!scaled_ge(&chars(""), 5, &chars("001"), 0));
}

#[test]
fn scalars_from_characters() {
    assert_eq!(scalar_of(&chars("42"), true), TypedValue::Integer(42));
    assert_eq!(
        scalar_of(&chars("42"), false),
        TypedValue::String(String::from("42"))
    );
    assert_eq!(
        scalar_of(&chars("4.2"), true),
        TypedValue::Float(String::from("4.2"))
    );
    assert_eq!(scalar_of(&chars("null"), false), TypedValue::Null);
    assert_eq!(
        scalar_of(&chars("[1]"), true),
        TypedValue::String(String::from("[1]"))
    );
}

#[test]
fn one_test_serves_many_texts() {
    let enclosure = Enclosure::new();
    assert!(enclosure.matches("[1,2]"));
    assert!(enclosure.matches("{}"));
    assert!(!enclosure.matches("[1,2"));
    assert!(!enclosure.matches("abc"));
    assert!(!enclosure.matches("{\n}"));
}
