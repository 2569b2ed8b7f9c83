//! Moving between bytes, strings and sequences of characters.

use vstd::prelude::*;
use vstd::utf8::{decode_utf8, valid_utf8};

verus! {

/// Joining two byte strings that are well-formed UTF-8 joins the texts that
/// they encode.
proof fn lemma_decode_joins(a: Seq<u8>, b: Seq<u8>)
    requires
        valid_utf8(a),
        valid_utf8(b),
    ensures
        valid_utf8(a + b),
        decode_utf8(a + b) == decode_utf8(a) + decode_utf8(b),
    decreases a.len(),
{
    vstd::utf8::valid_utf8_concat(a, b);
    if a.len() == 0 {
        assert(a + b =~= b);
        assert(decode_utf8(a) + decode_utf8(b) =~= decode_utf8(b));
    } else {
        let rest = vstd::utf8::pop_first_scalar(a);
        assert(rest.len() < a.len());
        lemma_decode_joins(rest, b);
        assert(vstd::utf8::pop_first_scalar(a + b) =~= rest + b);
        assert(decode_utf8(a + b) =~= decode_utf8(a) + decode_utf8(b));
    }
}

/// Two byte strings that are well-formed UTF-8, with the byte of an ASCII
/// character between them, encode the two texts with that character
/// between them.
pub(crate) proof fn lemma_utf8_joins(a: Seq<u8>, c: char, b: Seq<u8>)
    requires
        valid_utf8(a),
        valid_utf8(b),
        c as u32 <= 0x7f,
    ensures
        valid_utf8(a + seq![c as u8] + b),
        decode_utf8(a + seq![c as u8] + b) == decode_utf8(a) + seq![c] + decode_utf8(b),
{
    let one = seq![c as u8];
    reveal_with_fuel(valid_utf8, 2);
    reveal_with_fuel(decode_utf8, 2);
    assert(vstd::utf8::pop_first_scalar(one) =~= Seq::<u8>::empty());
    assert(valid_utf8(one));
    let byte = c as u8;
    assert(byte & 0x7f == byte) by (bit_vector)
        requires
            byte <= 0x7f,
    ;
    assert(vstd::utf8::decode_first_scalar(one) as char == c);
    assert(decode_utf8(one) =~= seq![c]);
    lemma_decode_joins(a, one);
    lemma_decode_joins(a + one, b);
}

/// The characters of `s`, in order.
pub fn chars_of(s: &str) -> (chars: Vec<char>)
    ensures
        chars@ == s@,
{
    let mut chars: Vec<char> = Vec::new();
    for c in it: s.chars()
        invariant
            it.seq() == s@,
            chars@ == it.seq().take(it.index() as int),
    {
        chars.push(c);
    }
    chars
}

/// The characters `chars[from..to]` as a vector of their own.
pub(crate) fn copy_range(chars: &Vec<char>, from: usize, to: usize) -> (part: Vec<char>)
    requires
        from <= to <= chars.len(),
    ensures
        part@ == chars@.subrange(from as int, to as int),
{
    let mut part: Vec<char> = Vec::new();
    let mut i: usize = from;
    while i < to
        invariant
            from <= i <= to <= chars.len(),
            part@ == chars@.subrange(from as int, i as int),
        decreases to - i,
    {
        part.push(chars[i]);
        i += 1;
    }
    part
}

/// `String::from_iter` over the characters of a vector: the string that
/// consists of exactly these characters.
#[verifier::external_body]
pub(crate) fn string_of(chars: &Vec<char>) -> (s: String)
    ensures
        s@ == chars@,
{
    String::from_iter(chars.iter())
}

/// `std::str::from_utf8`: the text that `bytes` encode. The call succeeds
/// exactly on well-formed UTF-8 and then yields the decoded characters.
#[verifier::external_body]
pub(crate) fn utf8_text(bytes: &[u8]) -> (text: Option<&str>)
    ensures
        text is Some <==> valid_utf8(bytes@),
        text matches Some(s) ==> s@ == decode_utf8(bytes@),
{
    std::str::from_utf8(bytes).ok()
}

} // verus!
