//! Percent-decoding of one key or value.

use vstd::prelude::*;
use vstd::utf8::{decode_utf8, encode_utf8, valid_utf8};

verus! {

/// Whether `b` is an ASCII hexadecimal digit.
pub open spec fn is_hex_digit(b: u8) -> bool {
    ||| 0x30 <= b <= 0x39
    ||| 0x41 <= b <= 0x46
    ||| 0x61 <= b <= 0x66
}

/// The value of the hexadecimal digit `b`.
pub open spec fn hex_value(b: u8) -> int
    recommends
        is_hex_digit(b),
{
    if b <= 0x39 {
        b - 0x30
    } else if b <= 0x46 {
        b - 0x41 + 10
    } else {
        b - 0x61 + 10
    }
}

/// The bytes that `bytes` stand for: each `%` followed by two hexadecimal
/// digits is the byte those digits name; every other byte, a `%` without two
/// such digits behind it included, stands for itself.
pub open spec fn unescape(bytes: Seq<u8>) -> Seq<u8>
    decreases bytes.len(),
{
    if bytes.len() == 0 {
        Seq::empty()
    } else if bytes[0] == 0x25 && bytes.len() >= 3 && is_hex_digit(bytes[1]) && is_hex_digit(
        bytes[2],
    ) {
        seq![(hex_value(bytes[1]) * 16 + hex_value(bytes[2])) as u8] + unescape(bytes.skip(3))
    } else {
        seq![bytes[0]] + unescape(bytes.skip(1))
    }
}

/// The text that the percent-encoded `text` stands for, or `None` where the
/// unescaped bytes are not well-formed UTF-8.
pub open spec fn percent_decoded(text: Seq<char>) -> Option<Seq<char>> {
    let bytes = unescape(encode_utf8(text));
    if valid_utf8(bytes) {
        Some(decode_utf8(bytes))
    } else {
        None
    }
}

/// `urlencoding::decode`: unescapes the UTF-8 bytes of `text` as [`unescape`]
/// says and reads the outcome as UTF-8 again; `None` where it is not UTF-8.
#[verifier::external_body]
pub(crate) fn percent_decode(text: &str) -> (res: Option<String>)
    ensures
        res is Some <==> percent_decoded(text@) is Some,
        res matches Some(s) ==> percent_decoded(text@) == Some(s@),
{
    urlencoding::decode(text).ok().map(|s| s.into_owned())
}

} // verus!
