//! The syntax of numbers: decimal integers in the range of `i64`, and
//! floating-point literals.

use vstd::prelude::*;

verus! {

/// Whether `c` is an ASCII decimal digit.
pub open spec fn is_digit(c: char) -> bool {
    '0' <= c <= '9'
}

/// The value of the decimal digit `c`.
pub open spec fn digit_value(c: char) -> int {
    c as int - '0' as int
}

/// Whether `s` consists of decimal digits only.
pub open spec fn all_digits(s: Seq<char>) -> bool {
    forall|i: int| 0 <= i < s.len() ==> is_digit(#[trigger] s[i])
}

/// The number that the decimal digits `s` write.
pub open spec fn digits_value(s: Seq<char>) -> int
    decreases s.len(),
{
    if s.len() == 0 {
        0
    } else {
        digits_value(s.drop_last()) * 10 + digit_value(s.last())
    }
}

/// Whether `s` begins with `+` or `-`.
pub open spec fn has_sign(s: Seq<char>) -> bool {
    s.len() > 0 && (s[0] == '+' || s[0] == '-')
}

/// `s` without the sign in front of it, if it has one.
pub open spec fn unsigned(s: Seq<char>) -> Seq<char> {
    if has_sign(s) {
        s.skip(1)
    } else {
        s
    }
}

/// The integer that `s` writes: an optional sign and at least one decimal
/// digit, nothing else, with a value in the range of `i64`. `None` for any
/// other text.
pub open spec fn integer_of(s: Seq<char>) -> Option<int> {
    let digits = unsigned(s);
    let magnitude = digits_value(digits);
    let value = if has_sign(s) && s[0] == '-' {
        -magnitude
    } else {
        magnitude
    };
    if digits.len() > 0 && all_digits(digits) && i64::MIN <= value <= i64::MAX {
        Some(value)
    } else {
        None
    }
}

/// The number of decimal digits at the front of `s`.
pub open spec fn digit_run(s: Seq<char>) -> nat
    decreases s.len(),
{
    if s.len() == 0 || !is_digit(s[0]) {
        0
    } else {
        1 + digit_run(s.skip(1))
    }
}

/// Whether `s` is an exponent: `e` or `E`, an optional sign, and at least
/// one digit.
pub open spec fn is_exponent(s: Seq<char>) -> bool {
    &&& s.len() > 0
    &&& s[0] == 'e' || s[0] == 'E'
    &&& unsigned(s.skip(1)).len() > 0
    &&& digit_run(unsigned(s.skip(1))) == unsigned(s.skip(1)).len()
}

/// Whether `s` is an unsigned decimal literal: digits with an optional
/// point among, before or behind them, at least one digit in all, and an
/// optional exponent at the end.
pub open spec fn is_decimal(s: Seq<char>) -> bool {
    let whole = digit_run(s) as int;
    let after = s.skip(whole);
    let pointed = after.len() > 0 && after[0] == '.';
    let fraction = if pointed {
        digit_run(after.skip(1)) as int
    } else {
        0
    };
    let tail = if pointed {
        after.skip(1 + fraction)
    } else {
        after
    };
    whole + fraction > 0 && (tail.len() == 0 || is_exponent(tail))
}

/// Whether `s` is a floating-point literal with digits: an optional sign and
/// a decimal literal.
pub open spec fn is_number_syntax(s: Seq<char>) -> bool {
    is_decimal(unsigned(s))
}

/// A prefix of digits that ends at a character which is none, or at the end
/// of `s`, is the run that [`digit_run`] measures.
proof fn lemma_digit_run(s: Seq<char>, n: int)
    requires
        0 <= n <= s.len(),
        forall|k: int| 0 <= k < n ==> is_digit(#[trigger] s[k]),
        n == s.len() || !is_digit(s[n]),
    ensures
        digit_run(s) == n,
    decreases n,
{
    if n > 0 {
        let t = s.skip(1);
        assert forall|k: int| 0 <= k < n - 1 implies is_digit(#[trigger] t[k]) by {
            assert(t[k] == s[k + 1]);
        }
        lemma_digit_run(t, n - 1);
    }
}

/// The run of digits in front of `s` is no longer than `s`, holds digits
/// only, and ends at a character that is no digit unless it ends with `s`.
pub(crate) proof fn lemma_digit_run_bounds(s: Seq<char>)
    ensures
        digit_run(s) <= s.len(),
        forall|k: int| 0 <= k < digit_run(s) ==> is_digit(#[trigger] s[k]),
        digit_run(s) < s.len() ==> !is_digit(s[digit_run(s) as int]),
    decreases s.len(),
{
    if s.len() > 0 && is_digit(s[0]) {
        let t = s.skip(1);
        lemma_digit_run_bounds(t);
        assert forall|k: int| 0 <= k < digit_run(s) implies is_digit(#[trigger] s[k]) by {
            if k > 0 {
                assert(t[k - 1] == s[k]);
            }
        }
    }
}

/// Whether `c` is an ASCII decimal digit.
pub fn digit(c: char) -> (res: bool)
    ensures
        res == is_digit(c),
{
    '0' <= c && c <= '9'
}

/// Whether `chars` has a sign at `at`.
pub(crate) fn sign_at(chars: &Vec<char>, at: usize) -> (res: bool)
    requires
        at <= chars.len(),
    ensures
        res == has_sign(chars@.skip(at as int)),
{
    at < chars.len() && (chars[at] == '+' || chars[at] == '-')
}

/// The index behind the digits that stand in `chars` from `from` on.
pub(crate) fn skip_digits(chars: &Vec<char>, from: usize) -> (to: usize)
    requires
        from <= chars.len(),
    ensures
        from <= to <= chars.len(),
        to == from + digit_run(chars@.skip(from as int)),
{
    let mut to: usize = from;
    while to < chars.len() && digit(chars[to])
        invariant
            from <= to <= chars.len(),
            forall|k: int| from <= k < to ==> is_digit(#[trigger] chars@[k]),
        decreases chars.len() - to,
    {
        to += 1;
    }
    proof {
        let tail = chars@.skip(from as int);
        assert forall|k: int| 0 <= k < to - from implies is_digit(#[trigger] tail[k]) by {
            assert(tail[k] == chars@[from + k]);
        }
        lemma_digit_run(tail, to - from);
    }
    to
}

/// The integer that `chars` writes, if it writes one in the range of `i64`.
pub fn parse_integer(chars: &Vec<char>) -> (res: Option<i64>)
    ensures
        res is Some <==> integer_of(chars@) is Some,
        res matches Some(value) ==> integer_of(chars@) == Some(value as int),
{
    let signed = sign_at(chars, 0);
    let negative = signed && chars[0] == '-';
    let start: usize = if signed { 1 } else { 0 };
    let ghost digits = unsigned(chars@);
    if start == chars.len() {
        return None;
    }
    let mut magnitude: u64 = 0;
    let mut beyond = false;
    let mut i: usize = start;
    while i < chars.len()
        invariant
            start <= i <= chars.len(),
            digits == unsigned(chars@),
            digits == chars@.skip(start as int),
            all_digits(digits.take(i - start)),
            !beyond ==> magnitude == digits_value(digits.take(i - start)),
            !beyond ==> magnitude <= 0x8000_0000_0000_0000,
            beyond ==> digits_value(digits.take(i - start)) > 0x8000_0000_0000_0000,
        decreases chars.len() - i,
    {
        let c = chars[i];
        let ghost seen = digits.take(i - start);
        let ghost more = digits.take(i - start + 1);
        proof {
            assert(more.drop_last() =~= seen);
        }
        if !digit(c) {
            proof {
                assert(!is_digit(digits[i - start]));
            }
            return None;
        }
        proof {
            assert forall|k: int| 0 <= k < more.len() implies is_digit(#[trigger] more[k]) by {
                if k < seen.len() {
                    assert(seen[k] == more[k]);
                }
            }
        }
        if !beyond {
            let next: u128 = (magnitude as u128) * 10 + ((c as u32 - '0' as u32) as u128);
            if next > 0x8000_0000_0000_0000 {
                beyond = true;
            } else {
                magnitude = next as u64;
            }
        }
        i += 1;
    }
    proof {
        assert(digits.take(i - start) =~= digits);
    }
    if beyond {
        None
    } else if negative {
        if magnitude == 0x8000_0000_0000_0000 {
            Some(i64::MIN)
        } else {
            Some(-(magnitude as i64))
        }
    } else if magnitude == 0x8000_0000_0000_0000 {
        None
    } else {
        Some(magnitude as i64)
    }
}

/// Whether `chars` holds an exponent from `from` to its end.
pub(crate) fn exponent_at(chars: &Vec<char>, from: usize) -> (res: bool)
    requires
        from <= chars.len(),
    ensures
        res == is_exponent(chars@.skip(from as int)),
{
    if from == chars.len() || (chars[from] != 'e' && chars[from] != 'E') {
        return false;
    }
    let ghost tail = chars@.skip(from as int);
    let start: usize = if sign_at(chars, from + 1) { from + 2 } else { from + 1 };
    assert(unsigned(tail.skip(1)) =~= chars@.skip(start as int));
    let end = skip_digits(chars, start);
    start < chars.len() && end == chars.len()
}

/// Whether `chars` holds an unsigned decimal literal from `from` to its end.
pub(crate) fn decimal_at(chars: &Vec<char>, from: usize) -> (res: bool)
    requires
        from <= chars.len(),
    ensures
        res == is_decimal(chars@.skip(from as int)),
{
    let ghost body = chars@.skip(from as int);
    let point = skip_digits(chars, from);
    let ghost whole = digit_run(body) as int;
    let ghost after = body.skip(whole);
    proof {
        assert(after =~= chars@.skip(point as int));
    }
    if point < chars.len() && chars[point] == '.' {
        let end = skip_digits(chars, point + 1);
        let ghost fraction = digit_run(after.skip(1)) as int;
        proof {
            assert(after.skip(1) =~= chars@.skip(point + 1));
            assert(after.skip(1 + fraction) =~= chars@.skip(end as int));
        }
        let digits = (point - from) + (end - point - 1);
        if end == chars.len() {
            digits > 0
        } else {
            digits > 0 && exponent_at(chars, end)
        }
    } else {
        proof {
            if after.len() > 0 {
                assert(after[0] == chars@[point as int]);
            }
        }
        if point == chars.len() {
            point > from
        } else {
            point > from && exponent_at(chars, point)
        }
    }
}

/// Whether `chars` is a floating-point literal with digits.
pub fn is_number(chars: &Vec<char>) -> (res: bool)
    ensures
        res == is_number_syntax(chars@),
{
    assert(chars@.skip(0) =~= chars@);
    let start: usize = if sign_at(chars, 0) { 1 } else { 0 };
    decimal_at(chars, start)
}

} // verus!
