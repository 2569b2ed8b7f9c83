//! Whether a floating-point literal is within the range of a double.

use crate::magnitude::{
    digits_ge, lemma_pow10_adds, lemma_pow10_grows, lemma_value_bounds, pow10,
};
use crate::number::{
    all_digits, digit, digit_run, digits_value, has_sign, is_decimal, is_digit, is_exponent,
    is_number, is_number_syntax, lemma_digit_run_bounds, sign_at, skip_digits, unsigned,
};
use crate::text::{chars_of, copy_range};
use vstd::prelude::*;

verus! {

/// The decimal digits of 2^1024 - 2^970: the least number that is nearer to
/// 2^1024 than to any double, or as near. A literal of this magnitude or
/// more has no finite double for its value.
pub const DOUBLE_LIMIT: &'static str =
    "179769313486231580793728971405303415079934132710037826936173778980444968292764750946649017977587207096330286416692887910946555547851940402630657488671505820681908902000708383676273854845817711531764475730270069855571366959622842914819860834936475292719074168444365510704342711559699508093042880177904174497792";

/// The exponents beyond which a literal is judged by its exponent alone.
pub const MOST_EXPONENT: u128 = 0x1_0000_0000_0000_0000_0000_0000;

/// The decimal digits among the characters of `s`.
pub open spec fn only_digits(s: Seq<char>) -> Seq<char>
    decreases s.len(),
{
    if s.len() == 0 {
        s
    } else if is_digit(s.last()) {
        only_digits(s.drop_last()).push(s.last())
    } else {
        only_digits(s.drop_last())
    }
}

/// The number that [`DOUBLE_LIMIT`] writes.
pub open spec fn double_limit() -> int {
    digits_value(only_digits(DOUBLE_LIMIT@))
}

/// The count of digits that a literal without sign has in front of its
/// point, or in all where it has no point.
pub open spec fn whole_len(body: Seq<char>) -> int {
    digit_run(body) as int
}

/// Whether a literal without sign has a point behind its first digits.
pub open spec fn has_point(body: Seq<char>) -> bool {
    whole_len(body) < body.len() && body[whole_len(body)] == '.'
}

/// The count of digits that a literal without sign has behind its point.
pub open spec fn fraction_len(body: Seq<char>) -> int {
    if has_point(body) {
        digit_run(body.skip(whole_len(body) + 1)) as int
    } else {
        0
    }
}

/// The index behind the digits and the point of a literal without sign:
/// where its exponent begins, if it has one.
pub open spec fn mantissa_end(body: Seq<char>) -> int {
    if has_point(body) {
        whole_len(body) + 1 + fraction_len(body)
    } else {
        whole_len(body)
    }
}

/// The digits of a literal without sign: those in front of the point and
/// those behind it.
pub open spec fn mantissa(body: Seq<char>) -> Seq<char> {
    if has_point(body) {
        body.take(whole_len(body)) + body.subrange(
            whole_len(body) + 1,
            whole_len(body) + 1 + fraction_len(body),
        )
    } else {
        body.take(whole_len(body))
    }
}

/// What stands behind the `e` of a literal without sign; nothing where it
/// has no exponent.
pub open spec fn exponent_text(body: Seq<char>) -> Seq<char> {
    if mantissa_end(body) < body.len() {
        body.skip(mantissa_end(body) + 1)
    } else {
        Seq::empty()
    }
}

/// The integer that a sign, if any, and digits behind it write.
pub open spec fn signed_value(text: Seq<char>) -> int {
    if has_sign(text) && text[0] == '-' {
        -digits_value(unsigned(text))
    } else {
        digits_value(unsigned(text))
    }
}

/// The exponent of a literal without sign; zero where it has none.
pub open spec fn exponent(body: Seq<char>) -> int {
    signed_value(exponent_text(body))
}

/// Whether the digits `m`, with the point moved right by `shift` places,
/// write a number that is no less than `limit`.
pub open spec fn reaches(m: Seq<char>, shift: int, limit: int) -> bool {
    if shift >= 0 {
        digits_value(m) * pow10(shift as nat) >= limit
    } else {
        digits_value(m) >= limit * pow10((-shift) as nat)
    }
}

/// Whether the magnitude of the floating-point literal `s` is
/// [`double_limit`] or more.
pub open spec fn exceeds_double(s: Seq<char>) -> bool {
    let body = unsigned(s);
    reaches(mantissa(body), exponent(body) - fraction_len(body), double_limit())
}

/// Whether `s` is a floating-point literal with digits whose magnitude is
/// below [`double_limit`], so that a finite double is nearest to it.
pub open spec fn is_finite_number(s: Seq<char>) -> bool {
    is_number_syntax(s) && !exceeds_double(s)
}

/// An exponent, held to the range from -[`MOST_EXPONENT`] to
/// [`MOST_EXPONENT`].
pub open spec fn held(e: int) -> int {
    if e > MOST_EXPONENT {
        MOST_EXPONENT as int
    } else if e < -MOST_EXPONENT {
        -MOST_EXPONENT
    } else {
        e
    }
}

/// There are no more digits among characters than characters, and they are
/// digits.
proof fn lemma_only_digits(s: Seq<char>)
    ensures
        only_digits(s).len() <= s.len(),
        all_digits(only_digits(s)),
    decreases s.len(),
{
    if s.len() > 0 {
        lemma_only_digits(s.drop_last());
    }
}

/// With the point moved right by more places than `limit` has digits, a
/// number reaches `limit` unless it is zero and `limit` is not.
proof fn lemma_far_right(m: Seq<char>, shift: int, limit: Seq<char>)
    requires
        all_digits(m),
        all_digits(limit),
        shift >= limit.len(),
    ensures
        reaches(m, shift, digits_value(limit)) == (digits_value(m) >= 1 || digits_value(limit)
            == 0),
{
    lemma_value_bounds(m);
    lemma_value_bounds(limit);
    lemma_pow10_grows(limit.len(), shift as nat);
    let (x, p) = (digits_value(m), pow10(shift as nat) as int);
    if x >= 1 {
        assert(x * p >= p) by (nonlinear_arith)
            requires
                x >= 1,
                p >= 0,
        ;
    } else {
        assert(x * p == 0) by (nonlinear_arith)
            requires
                x == 0,
        ;
    }
}

/// With the point moved left by more places than `m` has digits, a number
/// reaches `limit` only where `limit` is zero.
proof fn lemma_far_left(m: Seq<char>, shift: int, limit: Seq<char>)
    requires
        all_digits(m),
        all_digits(limit),
        shift < 0,
        -shift >= m.len(),
    ensures
        reaches(m, shift, digits_value(limit)) == (digits_value(limit) == 0),
{
    lemma_value_bounds(m);
    lemma_value_bounds(limit);
    lemma_pow10_grows(m.len(), (-shift) as nat);
    let (y, q) = (digits_value(limit), pow10((-shift) as nat) as int);
    if y >= 1 {
        assert(y * q >= q) by (nonlinear_arith)
            requires
                y >= 1,
                q >= 0,
        ;
    } else {
        assert(y * q == 0) by (nonlinear_arith)
            requires
                y == 0,
        ;
    }
}

/// An exponent beyond [`MOST_EXPONENT`] decides as [`MOST_EXPONENT`] does.
proof fn lemma_held(m: Seq<char>, fraction: int, e: int, limit: Seq<char>)
    requires
        all_digits(m),
        all_digits(limit),
        m.len() <= usize::MAX,
        limit.len() <= usize::MAX,
        0 <= fraction <= usize::MAX,
    ensures
        reaches(m, e - fraction, digits_value(limit)) == reaches(
            m,
            held(e) - fraction,
            digits_value(limit),
        ),
{
    if e > MOST_EXPONENT {
        lemma_far_right(m, e - fraction, limit);
        lemma_far_right(m, held(e) - fraction, limit);
    } else if e < -MOST_EXPONENT {
        lemma_far_left(m, e - fraction, limit);
        lemma_far_left(m, held(e) - fraction, limit);
    }
}

/// What stands behind the digits and the point of a decimal literal is an
/// exponent, if anything stands there; and an exponent has digits only behind
/// its `e` and its sign.
proof fn lemma_exponent_digits(body: Seq<char>)
    requires
        is_decimal(body),
    ensures
        mantissa_end(body) <= body.len(),
        mantissa_end(body) < body.len() ==> is_exponent(body.skip(mantissa_end(body)))
            && all_digits(unsigned(exponent_text(body))),
{
    let after = body.skip(whole_len(body));
    lemma_digit_run_bounds(body);
    if after.len() > 0 {
        assert(after[0] == body[whole_len(body)]);
    }
    if has_point(body) {
        assert(after.skip(1) =~= body.skip(whole_len(body) + 1));
        lemma_digit_run_bounds(after.skip(1));
        assert(after.skip(1 + fraction_len(body)) =~= body.skip(mantissa_end(body)));
    }
    if mantissa_end(body) < body.len() {
        let tail = body.skip(mantissa_end(body));
        assert(tail.skip(1) =~= exponent_text(body));
        lemma_digit_run_bounds(unsigned(tail.skip(1)));
    }
}

/// The decimal digits among `chars`.
pub fn digits_among(chars: &Vec<char>) -> (out: Vec<char>)
    ensures
        out@ == only_digits(chars@),
        all_digits(out@),
{
    let mut out: Vec<char> = Vec::new();
    let mut i: usize = 0;
    while i < chars.len()
        invariant
            i <= chars.len(),
            out@ == only_digits(chars@.take(i as int)),
        decreases chars.len() - i,
    {
        assert(chars@.take(i + 1).drop_last() =~= chars@.take(i as int));
        if digit(chars[i]) {
            out.push(chars[i]);
        }
        i += 1;
    }
    assert(chars@.take(i as int) =~= chars@);
    proof {
        lemma_only_digits(chars@);
    }
    out
}

/// The number that the digits of `chars` from `from` on write, where it is
/// below [`MOST_EXPONENT`], and [`MOST_EXPONENT`] where it is not.
pub(crate) fn held_value(chars: &Vec<char>, from: usize) -> (value: u128)
    requires
        from <= chars.len(),
        all_digits(chars@.skip(from as int)),
    ensures
        value == held(digits_value(chars@.skip(from as int))),
        0 <= digits_value(chars@.skip(from as int)),
{
    let ghost digits = chars@.skip(from as int);
    let mut value: u128 = 0;
    let mut i: usize = from;
    while i < chars.len()
        invariant
            from <= i <= chars.len(),
            digits == chars@.skip(from as int),
            all_digits(digits),
            value <= MOST_EXPONENT,
            value == held(digits_value(digits.take(i - from))),
            0 <= digits_value(digits.take(i - from)),
        decreases chars.len() - i,
    {
        let c = chars[i];
        proof {
            assert(digits.take(i - from + 1).drop_last() =~= digits.take(i - from));
            assert(is_digit(digits[i - from]));
        }
        if value < MOST_EXPONENT {
            let next: u128 = value * 10 + ((c as u32 - '0' as u32) as u128);
            value = if next > MOST_EXPONENT { MOST_EXPONENT } else { next };
        }
        i += 1;
    }
    assert(digits.take(i - from) =~= digits);
    value
}

/// Where the point of the literal that begins at `start` stands, or would
/// stand, and where its digits end.
pub(crate) fn literal_shape(chars: &Vec<char>, start: usize) -> (shape: (usize, usize))
    requires
        start <= chars.len(),
    ensures
        shape.0 == start + whole_len(chars@.skip(start as int)),
        shape.1 == start + mantissa_end(chars@.skip(start as int)),
        shape.0 <= shape.1 <= chars.len(),
        has_point(chars@.skip(start as int)) == (shape.0 < shape.1),
{
    let ghost body = chars@.skip(start as int);
    let point = skip_digits(chars, start);
    if point < chars.len() && chars[point] == '.' {
        assert(body.skip(whole_len(body) + 1) =~= chars@.skip(point + 1));
        let end = skip_digits(chars, point + 1);
        (point, end)
    } else {
        proof {
            if point < chars.len() {
                assert(body[point - start] == chars@[point as int]);
            }
        }
        (point, point)
    }
}

/// The digits of the literal that has its first digits from `start` to
/// `point` and, where `end` lies behind `point`, a point and more digits up
/// to `end`.
pub(crate) fn mantissa_digits(chars: &Vec<char>, start: usize, point: usize, end: usize) -> (digits:
    Vec<char>)
    requires
        start <= point <= end <= chars.len(),
        point == start + whole_len(chars@.skip(start as int)),
        end == start + mantissa_end(chars@.skip(start as int)),
        has_point(chars@.skip(start as int)) == (point < end),
    ensures
        digits@ == mantissa(chars@.skip(start as int)),
        all_digits(digits@),
{
    let ghost body = chars@.skip(start as int);
    let ghost behind = body.skip(whole_len(body) + 1);
    let mut digits = copy_range(chars, start, point);
    proof {
        lemma_digit_run_bounds(body);
    }
    if point < end {
        let mut more = copy_range(chars, point + 1, end);
        proof {
            lemma_digit_run_bounds(behind);
            assert(more@ =~= body.subrange(
                whole_len(body) + 1,
                whole_len(body) + 1 + fraction_len(body),
            ));
            assert forall|k: int| 0 <= k < more@.len() implies is_digit(#[trigger] more@[k]) by {
                assert(more@[k] == behind[k]);
            }
        }
        digits.append(&mut more);
    }
    digits
}

/// Whether the integer that stands in `chars` from `from` on is negative,
/// and its magnitude, held to [`MOST_EXPONENT`].
pub(crate) fn exponent_parts(chars: &Vec<char>, from: usize) -> (parts: (bool, u128))
    requires
        from <= chars.len(),
        all_digits(unsigned(chars@.skip(from as int))),
    ensures
        parts.1 <= MOST_EXPONENT,
        held(signed_value(chars@.skip(from as int))) == (if parts.0 {
            -(parts.1 as int)
        } else {
            parts.1 as int
        }),
{
    let ghost text = chars@.skip(from as int);
    let signed = sign_at(chars, from);
    let digits_from: usize = if signed { from + 1 } else { from };
    assert(unsigned(text) =~= chars@.skip(digits_from as int));
    let negative = signed && chars[from] == '-';
    let magnitude = held_value(chars, digits_from);
    (negative, magnitude)
}

/// The parts of the floating-point literal `chars`: the digits in front of
/// and behind its point, the count of those behind it, whether its exponent
/// is negative, and the magnitude of its exponent, held to
/// [`MOST_EXPONENT`].
pub(crate) fn literal_parts(chars: &Vec<char>) -> (parts: (Vec<char>, usize, bool, u128))
    requires
        is_number_syntax(chars@),
    ensures
        parts.0@ == mantissa(unsigned(chars@)),
        all_digits(parts.0@),
        parts.1 == fraction_len(unsigned(chars@)),
        parts.3 <= MOST_EXPONENT,
        held(exponent(unsigned(chars@))) == (if parts.2 {
            -(parts.3 as int)
        } else {
            parts.3 as int
        }),
{
    assert(chars@.skip(0) =~= chars@);
    let start: usize = if sign_at(chars, 0) { 1 } else { 0 };
    let ghost body = unsigned(chars@);
    let (point, end) = literal_shape(chars, start);
    let digits = mantissa_digits(chars, start, point, end);
    let fraction: usize = if point < end { end - point - 1 } else { 0 };
    if end < chars.len() {
        proof {
            lemma_exponent_digits(body);
            assert(exponent_text(body) =~= chars@.skip(end + 1));
        }
        let (negative, magnitude) = exponent_parts(chars, end + 1);
        (digits, fraction, negative, magnitude)
    } else {
        proof {
            assert(unsigned(exponent_text(body)) =~= Seq::<char>::empty());
        }
        (digits, fraction, false, 0)
    }
}

/// Whether `chars` is a floating-point literal with digits whose magnitude
/// is below [`double_limit`].
pub fn finite_number(chars: &Vec<char>) -> (res: bool)
    ensures
        res == is_finite_number(chars@),
{
    if !is_number(chars) {
        return false;
    }
    let (digits, fraction, negative, magnitude) = literal_parts(chars);
    let limit = digits_among(&chars_of(DOUBLE_LIMIT));
    let ghost body = unsigned(chars@);
    proof {
        assert(digits@.len() == digits.len() && limit@.len() == limit.len());
        lemma_held(digits@, fraction as int, exponent(body), limit@);
        lemma_pow10_adds(0, 0);
        let (x, y) = (digits_value(digits@), digits_value(limit@));
        assert(x * 1 == x && y * 1 == y) by (nonlinear_arith);
    }
    let exceeds = if negative {
        digits_ge(&digits, 0, &limit, magnitude + fraction as u128)
    } else if magnitude >= fraction as u128 {
        digits_ge(&digits, magnitude - fraction as u128, &limit, 0)
    } else {
        digits_ge(&digits, 0, &limit, fraction as u128 - magnitude)
    };
    !exceeds
}

} // verus!
