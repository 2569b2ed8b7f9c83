use fast_query_parsers::decode::{
    decode_nested, decode_scalar, decode_value, nested_or_null, remove_char, requote,
};
use fast_query_parsers::json::{enclosed, parse_json};
use fast_query_parsers::finite::finite_number;
use fast_query_parsers::number::{is_number, parse_integer};
use fast_query_parsers::TypedValue;

fn string(value: &str) -> TypedValue {
    TypedValue::String(String::from(value))
}

fn literal(value: &str) -> TypedValue {
    TypedValue::Float(String::from(value))
}

fn member(key: &str, value: TypedValue) -> (String, TypedValue) {
    (String::from(key), value)
}

fn chars(text: &str) -> Vec<char> {
    text.chars().collect()
}

struct Words {
    state: u64,
}

impl Words {
    fn next(&mut self) -> u64 {
        self.state ^= self.state << 13;
        self.state ^= self.state >> 7;
        self.state ^= self.state << 17;
        self.state
    }

    fn word(&mut self, alphabet: &[char], longest: usize) -> String {
        let len = (self.next() % (longest as u64 + 1)) as usize;
        (0..len)
            .map(|_| alphabet[(self.next() % alphabet.len() as u64) as usize])
            .collect()
    }
}

#[test]
fn null_is_null_with_and_without_numbers() {
    assert_eq!(decode_value("null", true), TypedValue::Null);
    assert_eq!(decode_value("null", false), TypedValue::Null);
    assert_eq!(decode_value("\"null\"", true), TypedValue::Null);
    assert_eq!(decode_value("Null", true), string("Null"));
}

#[test]
fn integers_in_canonical_syntax() {
    assert_eq!(decode_scalar("1", true), TypedValue::Integer(1));
    assert_eq!(decode_scalar("-1", true), TypedValue::Integer(-1));
    assert_eq!(decode_scalar("+1", true), TypedValue::Integer(1));
    assert_eq!(decode_scalar("007", true), TypedValue::Integer(7));
    assert_eq!(decode_scalar("-0", true), TypedValue::Integer(0));
    assert_eq!(
        decode_scalar("9223372036854775807", true),
        TypedValue::Integer(i64::MAX)
    );
    assert_eq!(
        decode_scalar("-9223372036854775808", true),
        TypedValue::Integer(i64::MIN)
    );
    assert_eq!(
        decode_scalar("0000000000000000000000000000000000000042", true),
        TypedValue::Integer(42)
    );
}

#[test]
fn integers_beyond_the_range_fall_through_to_float() {
    assert_eq!(
        decode_scalar("9223372036854775808", true),
        literal("9223372036854775808")
    );
    assert_eq!(
        decode_scalar("-9223372036854775809", true),
        literal("-9223372036854775809")
    );
    assert_eq!(
        decode_scalar("99999999999999999999999999999999", true),
        literal("99999999999999999999999999999999")
    );
}

#[test]
fn floating_point_literals() {
    for text in [
        "1.1", "1.1e1", "1.1e-1", "1.1E+1", "-1.5", "+.5", "5.", "1e5", "0.0", "-0.0", "1.e2",
        ".5e-3", "1e308", "1e-999", "0e999",
    ] {
        assert_eq!(decode_scalar(text, true), literal(text), "{}", text);
        assert_eq!(decode_scalar(text, false), string(text), "{}", text);
    }
    assert_eq!(
        "1.1e-1".parse::<f64>().unwrap(),
        match decode_scalar("1.1e-1", true) {
            TypedValue::Float(text) => text.parse::<f64>().unwrap(),
            other => panic!("no float: {:?}", other),
        }
    );
}

#[test]
fn texts_that_only_look_like_numbers_are_strings() {
    for text in [
        "", "+", "-", ".", "e5", "1e", "1e+", "1.1.1", "1 ", " 1", "1,5", "0x10", "1_000", "--1",
        "+-1", "1e5.5", ".e5", "1f", "١٢",
    ] {
        assert_eq!(decode_scalar(text, true), string(text), "{:?}", text);
    }
}

#[test]
fn what_is_no_finite_number_is_a_string() {
    for text in [
        "inf", "-inf", "+inf", "Infinity", "INFINITY", "nan", "NaN", "-NAN", "1e999", "-1e309",
        "1.8e308", "17976931348623159e292",
    ] {
        assert_eq!(decode_scalar(text, true), string(text), "{}", text);
        assert_eq!(decode_scalar(text, false), string(text), "{}", text);
    }
    let huge = "9".repeat(400);
    assert_eq!(decode_scalar(&huge, true), string(&huge));
    let long = format!("{}.5", "9".repeat(300));
    assert_eq!(decode_scalar(&long, true), literal(&long));
}

const LIMIT: &str = "179769313486231580793728971405303415079934132710037826936173778980444968292764750946649017977587207096330286416692887910946555547851940402630657488671505820681908902000708383676273854845817711531764475730270069855571366959622842914819860834936475292719074168444365510704342711559699508093042880177904174497792";

fn finite_by_the_standard_library(text: &str) -> bool {
    text.parse::<f64>().map_or(false, |value| value.is_finite())
}

#[test]
fn the_limit_of_doubles_is_exact() {
    let below = format!("{}1", &LIMIT[..LIMIT.len() - 1]);
    let above = format!("{}3", &LIMIT[..LIMIT.len() - 1]);
    let mut cases = vec![
        (String::from(LIMIT), false),
        (below.clone(), true),
        (above, false),
        (format!("-{}", LIMIT), false),
        (format!("-{}", below), true),
        (format!("{}.0", LIMIT), false),
        (format!("{}.999", below), true),
        (format!("000{}", below), true),
        (format!("000{}", LIMIT), false),
        (format!("{}0e-1", LIMIT), false),
        (format!("{}9e-1", below), true),
        (format!("{}e0", LIMIT), false),
        (format!("{}e+0", below), true),
        (format!("{}e-0", LIMIT), false),
        (format!("0.{}e309", LIMIT), false),
        (format!("0.{}e309", below), true),
        (format!("0.{}e310", below), false),
        (format!("0.000{}e312", below), true),
        (format!("1.{}e308", &LIMIT[1..]), false),
        (format!("1.{}e308", &below[1..]), true),
        (format!("{}00000e-5", LIMIT), false),
        (format!("{}00000e-5", below), true),
        (format!("{}00000e-6", LIMIT), true),
        (String::from("1.7976931348623157e308"), true),
        (String::from("1.7976931348623158e308"), true),
        (String::from("1.7976931348623159e308"), false),
        (String::from("1.797693134862315807e308"), true),
        (String::from("1.797693134862315808e308"), false),
        (String::from("0e99999999999999999999999999999999999999999"), true),
        (String::from("0.000e99999999999999999999999999999999999999999"), true),
        (String::from("1e99999999999999999999999999999999999999999"), false),
        (String::from("1e-99999999999999999999999999999999999999999"), true),
        (String::from("0.0000000001e99999999999999999999999999999999999999999"), false),
        (String::from("1e1267650600228229401496703205376"), false),
        (String::from("1e-1267650600228229401496703205376"), true),
        (String::from("1e1267650600228229401496703205375"), false),
        (String::from("1e00000000000000000000000000000000000000000308"), true),
        (String::from("1e00000000000000000000000000000000000000000309"), false),
        (String::from("1e-00000000000000000000000000000000000000000309"), true),
    ];
    cases.push((format!("1{}", "0".repeat(308)), true));
    cases.push((format!("1{}", "0".repeat(309)), false));
    cases.push((format!("0.{}1e400", "0".repeat(100)), true));
    cases.push((format!("0.{}1e410", "0".repeat(100)), false));
    cases.push((format!("{}e-400", "9".repeat(700)), true));
    cases.push((format!("{}e-391", "9".repeat(700)), false));
    cases.push((format!("{}e-392", "1".repeat(700)), true));
    for (text, finite) in cases {
        assert_eq!(finite_by_the_standard_library(&text), finite, "{}", text);
        assert_eq!(finite_number(&chars(&text)), finite, "{}", text);
    }
}

#[test]
fn finite_numbers_are_those_of_the_standard_library() {
    let mut words = Words { state: 0x2468_ace0_1357_9bdf };
    let alphabet = ['0', '1', '9', '+', '-', '.', 'e', 'E', '3', '7', 'n', 'f', 'i', 'a'];
    let mut finite = 0;
    for _ in 0..60000 {
        let text = words.word(&alphabet, 12);
        let expected = finite_by_the_standard_library(&text);
        assert_eq!(finite_number(&chars(&text)), expected, "{:?}", text);
        if expected {
            finite += 1;
        }
    }
    assert!(finite > 1000);
    let mut beyond = 0;
    let digits = ['0', '1', '2', '3', '4', '5', '6', '7', '8', '9'];
    for round in 0..3000 {
        let whole = words.word(&digits, 330);
        let fraction = words.word(&digits, 40);
        let exponent = (words.next() % 700) as i64 - 350;
        let text = match round % 3 {
            0 => format!("{}.{}e{}", whole, fraction, exponent),
            1 => format!("{}e{}", whole, exponent),
            _ => format!("1797693134862315{}e{}", whole, 293 - whole.len() as i64),
        };
        if text.parse::<f64>().is_ok() {
            let expected = finite_by_the_standard_library(&text);
            assert_eq!(finite_number(&chars(&text)), expected, "{:?}", text);
            if !expected {
                beyond += 1;
            }
        }
    }
    assert!(beyond > 300);
}

#[test]
fn booleans_are_case_sensitive() {
    assert_eq!(decode_scalar("true", true), TypedValue::Boolean(true));
    assert_eq!(decode_scalar("false", true), TypedValue::Boolean(false));
    assert_eq!(decode_scalar("true", false), TypedValue::Boolean(true));
    assert_eq!(decode_scalar("false", false), TypedValue::Boolean(false));
    assert_eq!(decode_scalar("True", true), string("True"));
    assert_eq!(decode_scalar("FALSE", false), string("FALSE"));
    assert_eq!(decode_scalar("truee", true), string("truee"));
}

#[test]
fn the_empty_text_is_the_empty_string() {
    assert_eq!(decode_value("", true), string(""));
    assert_eq!(decode_value("", false), string(""));
    assert_eq!(decode_value("\"\"", true), string(""));
}

#[test]
fn double_quotes_are_taken_out_of_scalars() {
    assert_eq!(decode_value("\"abc\"", true), string("abc"));
    assert_eq!(decode_value("a\"b\"c", true), string("abc"));
    assert_eq!(decode_value("\"12\"", true), TypedValue::Integer(12));
    assert_eq!(decode_value("\"12\"", false), string("12"));
    assert_eq!(decode_value("\"1.5\"", true), literal("1.5"));
    assert_eq!(decode_value("\"true\"", false), TypedValue::Boolean(true));
    assert_eq!(remove_char(&chars("\"a\"\"b"), '"'), chars("ab"));
    assert_eq!(remove_char(&chars("abc"), '"'), chars("abc"));
    assert_eq!(requote(&chars("{'a': \"b\"}")), chars("{\"a\": \"b\"}"));
}

#[test]
fn nested_arrays_and_objects() {
    assert_eq!(
        decode_value("[1,2,3,\"abc\"]", true),
        TypedValue::Array(vec![
            TypedValue::Integer(1),
            TypedValue::Integer(2),
            TypedValue::Integer(3),
            string("abc"),
        ])
    );
    assert_eq!(
        decode_value("{\"first\": 1, \"second\": 2, \"third\": \"abc\"}", true),
        TypedValue::Object(vec![
            member("first", TypedValue::Integer(1)),
            member("second", TypedValue::Integer(2)),
            member("third", string("abc")),
        ])
    );
    assert_eq!(
        decode_value("{\"a\": {\"b\": [true, null, 1.5, \"1\"]}}", true),
        TypedValue::Object(vec![member(
            "a",
            TypedValue::Object(vec![member(
                "b",
                TypedValue::Array(vec![
                    TypedValue::Boolean(true),
                    TypedValue::Null,
                    literal("1.5"),
                    string("1"),
                ])
            )])
        )])
    );
}

#[test]
fn nested_values_keep_their_own_types() {
    assert_eq!(
        decode_value("[1, \"1\", 1.0]", false),
        TypedValue::Array(vec![TypedValue::Integer(1), string("1"), literal("1.0")])
    );
    assert_eq!(
        decode_value("[18446744073709551615, -9223372036854775808]", true),
        TypedValue::Array(vec![
            literal("18446744073709551615"),
            TypedValue::Integer(i64::MIN)
        ])
    );
}

#[test]
fn single_quotes_are_tried_as_double_quotes() {
    assert_eq!(
        decode_value("{'id': 0, 'name': 'Flora Phelps'}", true),
        TypedValue::Object(vec![
            member("id", TypedValue::Integer(0)),
            member("name", string("Flora Phelps")),
        ])
    );
    assert_eq!(
        decode_value("['a', 'b']", true),
        TypedValue::Array(vec![string("a"), string("b")])
    );
    assert_eq!(
        decode_value("[\"it's\"]", true),
        TypedValue::Array(vec![string("it's")])
    );
}

#[test]
fn enclosed_text_that_is_no_json_is_null() {
    for text in ["[1,2,]", "{a: 1}", "[True]", "{'a': 'b\"c'}", "[] []", "[1 2]", "{\"a\"}"] {
        assert_eq!(decode_value(text, true), TypedValue::Null, "{}", text);
        assert_eq!(decode_value(text, false), TypedValue::Null, "{}", text);
    }
    for text in ["[1,2", "[}", "{]", "1,2]"] {
        assert_eq!(decode_value(text, true), string(text), "{}", text);
    }
    assert_eq!(decode_nested("[nope]"), TypedValue::Null);
    assert_eq!(decode_value("[]", true), TypedValue::Array(vec![]));
    assert_eq!(decode_value("{}", true), TypedValue::Object(vec![]));
}

#[test]
fn deep_nesting_is_null_and_no_crash() {
    let deep = format!("{}{}", "[".repeat(100_000), "]".repeat(100_000));
    assert_eq!(decode_value(&deep, true), TypedValue::Null);
    let fine = format!("{}{}", "[".repeat(100), "]".repeat(100));
    assert!(matches!(decode_value(&fine, true), TypedValue::Array(_)));
}

#[test]
fn objects_have_each_key_once() {
    assert_eq!(
        decode_value("{\"b\": 1, \"a\": 2, \"b\": 3}", true),
        TypedValue::Object(vec![
            member("a", TypedValue::Integer(2)),
            member("b", TypedValue::Integer(3)),
        ])
    );
}

#[test]
fn a_reading_without_value_is_null() {
    assert_eq!(nested_or_null(None), TypedValue::Null);
    assert_eq!(
        nested_or_null(Some(TypedValue::Integer(3))),
        TypedValue::Integer(3)
    );
    assert_eq!(parse_json("[1]"), Some(TypedValue::Array(vec![TypedValue::Integer(1)])));
    assert_eq!(parse_json("[1"), None);
    assert_eq!(parse_json("'a'"), None);
    assert_eq!(parse_json("7"), Some(TypedValue::Integer(7)));
}

fn enclosed_by_hand(text: &str) -> bool {
    let all: Vec<char> = text.chars().collect();
    if all.len() < 2 {
        return false;
    }
    let (first, last) = (all[0], all[all.len() - 1]);
    let brackets = (first == '[' && last == ']') || (first == '{' && last == '}');
    brackets && all[1..all.len() - 1].iter().all(|c| *c != '\n')
}

#[test]
fn enclosure_is_about_both_ends_and_line_feeds() {
    for (text, expected) in [
        ("[]", true),
        ("{}", true),
        ("[1,2]", true),
        ("{\"a\":1}", true),
        ("[", false),
        ("]", false),
        ("", false),
        ("[}", false),
        ("{]", false),
        ("[1,2] ", false),
        (" [1,2]", false),
        ("[1,\n2]", false),
        ("[1,\r2]", true),
        ("[\n]", false),
        ("[]\n", false),
        ("\n[]", false),
        ("[é]", true),
        ("[]]", true),
        ("[[]", true),
        ("{a}{b}", true),
    ] {
        assert_eq!(enclosed(text), expected, "{:?}", text);
        assert_eq!(enclosed_by_hand(text), expected, "{:?}", text);
    }
    let mut words = Words { state: 0x1234_5678_9abc_def1 };
    let alphabet = ['[', ']', '{', '}', '\n', '\r', 'a', '1', ' ', '\u{e9}', '\u{2028}'];
    for _ in 0..5000 {
        let text = words.word(&alphabet, 6);
        assert_eq!(enclosed(&text), enclosed_by_hand(&text), "{:?}", text);
    }
}

#[test]
fn a_line_feed_inside_brackets_makes_a_scalar() {
    assert_eq!(decode_value("[1,\n2]", true), string("[1,\n2]"));
    assert_eq!(
        decode_value("[1,\r2]", true),
        TypedValue::Array(vec![TypedValue::Integer(1), TypedValue::Integer(2)])
    );
}

#[test]
fn integer_syntax_is_that_of_the_standard_library() {
    let mut words = Words { state: 0x0bad_cafe_dead_beef };
    let alphabet = ['0', '1', '9', '5', '+', '-', ' ', 'a', '8', '2'];
    for _ in 0..20000 {
        let text = words.word(&alphabet, 22);
        assert_eq!(
            parse_integer(&chars(&text)),
            text.parse::<i64>().ok(),
            "{:?}",
            text
        );
    }
    for text in ["9223372036854775807", "9223372036854775808", "-9223372036854775808", "-9223372036854775809", "+0", "-", "+", ""] {
        assert_eq!(parse_integer(&chars(text)), text.parse::<i64>().ok(), "{:?}", text);
    }
}

#[test]
fn float_syntax_is_that_of_the_standard_library() {
    let mut words = Words { state: 0x0123_4567_89ab_cdef };
    let alphabet = [
        '0', '1', '9', '+', '-', '.', 'e', 'E', 'i', 'n', 'f', 'a', 'N', 'I', 't', 'y', ' ', '5',
    ];
    let mut floats = 0;
    for _ in 0..60000 {
        let text = words.word(&alphabet, 9);
        let all = chars(&text);
        let lower = text.trim_start_matches(['+', '-']).to_ascii_lowercase();
        let sign = text.len() - text.trim_start_matches(['+', '-']).len();
        let named = sign <= 1 && ["inf", "infinity", "nan"].contains(&lower.as_str());
        assert_eq!(is_number(&all) || named, text.parse::<f64>().is_ok(), "{:?}", text);
        if is_number(&all) {
            floats += 1;
        }
    }
    assert!(floats > 1000);
}
