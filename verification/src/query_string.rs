//! The two entry points: a query string as a list of pairs, and as a typed
//! object.

use crate::coerce::{object_members, Coercer};
use crate::escape::{percent_decode, percent_decoded};
use crate::segment::{
    find_char, lemma_segments_join, plus_to_space, replace_plus, segments, split_pair,
    split_segments,
};
use crate::text::{chars_of, copy_range, lemma_utf8_joins, string_of, utf8_text};
use crate::value::{well_formed, TypedValue, ValueView};
use vstd::prelude::*;
use vstd::utf8::{decode_utf8, valid_utf8};

verus! {

/// Why a query string could not be read.
#[derive(Clone, Copy, Debug, PartialEq, Eq)]
pub enum DecodeError {
    /// The input is not well-formed UTF-8.
    InvalidUtf8,
}

/// The key and the value of a segment: what stands before and behind its
/// first `=`, each percent-decoded. Where one of the two does not
/// percent-decode to well-formed UTF-8, the segment as it stands is the key
/// and the value is empty.
pub open spec fn decoded_pair(seg: Seq<char>) -> (Seq<char>, Seq<char>) {
    let (key, value) = split_pair(seg);
    match (percent_decoded(key), percent_decoded(value)) {
        (Some(k), Some(v)) => (k, v),
        _ => (seg, Seq::empty()),
    }
}

/// The pairs of `segs`, one for each segment and in the same order.
pub open spec fn decoded_pairs(segs: Seq<Seq<char>>) -> Seq<(Seq<char>, Seq<char>)> {
    Seq::new(segs.len(), |i: int| decoded_pair(segs[i]))
}

/// The pairs that the query string `bytes` holds when `sep` parts its
/// segments: the bytes are read as UTF-8, every `+` becomes a space, the text
/// is cut at each `sep`, empty segments are dropped, and each segment gives
/// its pair. Bytes that are not UTF-8 are the one failure.
pub open spec fn query_pairs(bytes: Seq<u8>, sep: char) -> Result<
    Seq<(Seq<char>, Seq<char>)>,
    DecodeError,
> {
    if valid_utf8(bytes) {
        Ok(decoded_pairs(segments(plus_to_space(decode_utf8(bytes)), sep)))
    } else {
        Err(DecodeError::InvalidUtf8)
    }
}

/// The pairs of the query string `bytes`; none where it cannot be read.
pub open spec fn pairs_of(bytes: Seq<u8>, sep: char) -> Seq<(Seq<char>, Seq<char>)> {
    match query_pairs(bytes, sep) {
        Ok(pairs) => pairs,
        Err(_) => Seq::empty(),
    }
}

/// The error with which the query string `bytes` is refused, if it is.
pub open spec fn refusal(bytes: Seq<u8>, sep: char) -> Option<DecodeError> {
    match query_pairs(bytes, sep) {
        Ok(_) => None,
        Err(e) => Some(e),
    }
}

/// The object that the query string `bytes` comes to: its pairs, parted by
/// `&`, gathered by key and typed.
pub open spec fn query_object(bytes: Seq<u8>, parse_numbers: bool) -> Result<
    ValueView,
    DecodeError,
> {
    match query_pairs(bytes, '&') {
        Ok(pairs) => Ok(ValueView::Object(object_members(pairs, parse_numbers))),
        Err(e) => Err(e),
    }
}

/// A list of pairs, or the failure to read one, with the pairs taken by
/// their views.
pub open spec fn pairs_view(res: Result<Vec<(String, String)>, DecodeError>) -> Result<
    Seq<(Seq<char>, Seq<char>)>,
    DecodeError,
> {
    match res {
        Ok(pairs) => Ok(pairs.deep_view()),
        Err(e) => Err(e),
    }
}

/// A typed value, or the failure to read one, with the value taken by its
/// view.
pub open spec fn value_view(res: Result<TypedValue, DecodeError>) -> Result<
    ValueView,
    DecodeError,
> {
    match res {
        Ok(value) => Ok(value@),
        Err(e) => Err(e),
    }
}

/// Order and multiplicity are kept: a query string that is UTF-8 has one
/// pair for each of its non-empty segments, the pair at each position being
/// the pair of the segment at that position.
pub proof fn lemma_pairs_follow_segments(bytes: Seq<u8>, sep: char)
    requires
        valid_utf8(bytes),
    ensures
        query_pairs(bytes, sep) is Ok,
        pairs_of(bytes, sep).len() == segments(plus_to_space(decode_utf8(bytes)), sep).len(),
        forall|i: int|
            0 <= i < pairs_of(bytes, sep).len() ==> #[trigger] pairs_of(bytes, sep)[i]
                == decoded_pair(segments(plus_to_space(decode_utf8(bytes)), sep)[i]),
{
}

/// When a query string is read and when it is refused: it is read exactly
/// where its bytes are UTF-8, whatever its escapes are, and it is refused,
/// as `InvalidUtf8`, exactly where they are not.
pub proof fn lemma_read_or_refused(bytes: Seq<u8>, sep: char)
    ensures
        query_pairs(bytes, sep) is Ok <==> valid_utf8(bytes),
        refusal(bytes, sep) == Some(DecodeError::InvalidUtf8) <==> !valid_utf8(bytes),
{
}

/// Two query strings, joined by a separator that is an ASCII character other
/// than `+`, hold the pairs of the first and then the pairs of the second.
pub proof fn lemma_joined_inputs(a: Seq<u8>, b: Seq<u8>, sep: char)
    requires
        valid_utf8(a),
        valid_utf8(b),
        sep as u32 <= 0x7f,
        sep != '+',
    ensures
        query_pairs(a + seq![sep as u8] + b, sep) is Ok,
        pairs_of(a + seq![sep as u8] + b, sep) == pairs_of(a, sep) + pairs_of(b, sep),
{
    let (x, y) = (decode_utf8(a), decode_utf8(b));
    lemma_utf8_joins(a, sep, b);
    assert(plus_to_space(x + seq![sep] + y) =~= plus_to_space(x) + seq![sep] + plus_to_space(y));
    lemma_segments_join(plus_to_space(x), plus_to_space(y), sep);
    assert(pairs_of(a + seq![sep as u8] + b, sep) =~= pairs_of(a, sep) + pairs_of(b, sep));
}

/// The pair of one segment.
pub fn decode_pair(seg: &Vec<char>) -> (pair: (String, String))
    ensures
        (pair.0@, pair.1@) == decoded_pair(seg@),
{
    let at = find_char(seg, 0, '=');
    assert(seg@.skip(0) =~= seg@);
    let (raw_key, raw_value) = if at < seg.len() {
        (copy_range(seg, 0, at), copy_range(seg, at + 1, seg.len()))
    } else {
        (copy_range(seg, 0, seg.len()), Vec::new())
    };
    proof {
        assert(raw_key@ =~= split_pair(seg@).0);
        assert(raw_value@ =~= split_pair(seg@).1);
    }
    let key_text = string_of(&raw_key);
    let value_text = string_of(&raw_value);
    match (percent_decode(key_text.as_str()), percent_decode(value_text.as_str())) {
        (Some(key), Some(value)) => (key, value),
        _ => (string_of(seg), String::new()),
    }
}

/// Reads the query string `qs` as a list of pairs of key and value, in the
/// order of the input and with every repetition kept; `separator` parts the
/// segments. The call fails where `qs` is not UTF-8, and nowhere else: a
/// segment whose key or value does not percent-decode to UTF-8 is its own
/// key, as it stands, with the empty value.
pub fn parse_query_string(qs: &[u8], separator: char) -> (res: Result<
    Vec<(String, String)>,
    DecodeError,
>)
    ensures
        pairs_view(res) == query_pairs(qs@, separator),
{
    let text = match utf8_text(qs) {
        Some(text) => text,
        None => {
            return Err(DecodeError::InvalidUtf8);
        },
    };
    let spaced = replace_plus(&chars_of(text));
    let segs = split_segments(&spaced, separator);
    let ghost all = segs.deep_view();
    let mut pairs: Vec<(String, String)> = Vec::new();
    let mut i: usize = 0;
    while i < segs.len()
        invariant
            i <= segs.len(),
            all == segs.deep_view(),
            pairs.len() == i,
            forall|k: int| 0 <= k < i ==> #[trigger] pairs.deep_view()[k] == decoded_pair(all[k]),
        decreases segs.len() - i,
    {
        let ghost before = pairs.deep_view();
        let ghost held = pairs@;
        proof {
            assert(segs@[i as int].deep_view() =~= segs@[i as int]@);
        }
        let pair = decode_pair(&segs[i]);
        pairs.push(pair);
        proof {
            assert forall|k: int| 0 <= k < i + 1 implies #[trigger] pairs.deep_view()[k]
                == decoded_pair(all[k]) by {
                if k < i {
                    assert(pairs@[k] == held[k]);
                    assert(pairs.deep_view()[k] == before[k]);
                }
            }
        }
        i += 1;
    }
    assert(pairs.deep_view() =~= decoded_pairs(all));
    Ok(pairs)
}

impl Coercer {
    /// Reads the query string `bs`, whose segments `&` parts, as a typed
    /// object: each key once, a key that occurs more than once with the
    /// array of its values, and every value with the type that its text
    /// denotes. Without `parse_numbers` the text of a number stays a string.
    pub fn parse_to_object(&self, bs: &[u8], parse_numbers: bool) -> (res: Result<
        TypedValue,
        DecodeError,
    >)
        ensures
            value_view(res) == query_object(bs@, parse_numbers),
            res matches Ok(object) ==> object is Object && well_formed(object@),
    {
        match parse_query_string(bs, '&') {
            Ok(pairs) => Ok(self.coerce(&pairs, parse_numbers)),
            Err(e) => Err(e),
        }
    }
}

/// Reads the query string `bs` as a typed object, with a coercer of its
/// own. Who reads many query strings keeps one [`Coercer`] and calls
/// [`Coercer::parse_to_object`].
pub fn parse_query_string_to_json(bs: &[u8], parse_numbers: bool) -> (res: Result<
    TypedValue,
    DecodeError,
>)
    ensures
        value_view(res) == query_object(bs@, parse_numbers),
        res matches Ok(object) ==> object is Object && well_formed(object@),
{
    Coercer::new().parse_to_object(bs, parse_numbers)
}

} // verus!
