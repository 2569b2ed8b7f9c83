//! Comparing numbers that are written in decimal digits, however long.

use crate::number::{all_digits, digit, digits_value, is_digit};
use vstd::prelude::*;

verus! {

/// The power of ten with the exponent `n`.
pub open spec fn pow10(n: nat) -> nat
    decreases n,
{
    if n == 0 {
        1
    } else {
        10 * pow10((n - 1) as nat)
    }
}

/// Whether `s` consists of the digit `0` only.
pub open spec fn all_zeros(s: Seq<char>) -> bool {
    forall|i: int| 0 <= i < s.len() ==> #[trigger] s[i] == '0'
}

/// The number of `0` digits at the front of `s`.
pub open spec fn zero_run(s: Seq<char>) -> nat
    decreases s.len(),
{
    if s.len() == 0 || s[0] != '0' {
        0
    } else {
        1 + zero_run(s.skip(1))
    }
}

/// `s` without the `0` digits at its front.
pub open spec fn significant(s: Seq<char>) -> Seq<char> {
    s.skip(zero_run(s) as int)
}

/// `count` zeros.
pub open spec fn zeros(count: nat) -> Seq<char> {
    Seq::new(count, |i: int| '0')
}

/// The most places by which [`scaled_ge`] moves a number; it is more than
/// any text has characters.
pub const MOST_PLACES: u128 = 0x1_0000_0000_0000_0000_0000_0000_0000;

/// Powers of ten are positive, and the power of a sum is the product of the
/// powers.
pub(crate) proof fn lemma_pow10_adds(a: nat, b: nat)
    ensures
        pow10(a) >= 1,
        pow10(a + b) == pow10(a) * pow10(b),
    decreases a,
{
    let q = pow10(b);
    if a > 0 {
        lemma_pow10_adds((a - 1) as nat, b);
        let p = pow10((a - 1) as nat);
        assert(10 * (p * q) == (10 * p) * q) by (nonlinear_arith);
    } else {
        assert(1 * q == q) by (nonlinear_arith);
    }
}

/// A larger exponent gives no smaller power of ten.
pub(crate) proof fn lemma_pow10_grows(a: nat, b: nat)
    requires
        a <= b,
    ensures
        pow10(a) <= pow10(b),
    decreases b,
{
    if a < b {
        lemma_pow10_grows(a, (b - 1) as nat);
    }
}

/// The number that two texts write one behind the other: the number of the
/// first, moved left by the length of the second, and the number of the
/// second.
proof fn lemma_value_joins(a: Seq<char>, b: Seq<char>)
    ensures
        digits_value(a + b) == digits_value(a) * pow10(b.len()) + digits_value(b),
    decreases b.len(),
{
    let x = digits_value(a);
    if b.len() == 0 {
        assert(x * 1 == x) by (nonlinear_arith);
    } else {
        let front = b.drop_last();
        lemma_value_joins(a, front);
        assert((a + b).drop_last() =~= a + front);
        let p = pow10(front.len());
        let y = digits_value(front);
        assert((x * p + y) * 10 == x * (10 * p) + y * 10) by (nonlinear_arith);
    }
}

/// Digits write a number that is not negative and is below the power of ten
/// with their count.
pub(crate) proof fn lemma_value_bounds(s: Seq<char>)
    requires
        all_digits(s),
    ensures
        0 <= digits_value(s) < pow10(s.len()),
    decreases s.len(),
{
    if s.len() > 0 {
        let front = s.drop_last();
        assert forall|i: int| 0 <= i < front.len() implies is_digit(#[trigger] front[i]) by {
            assert(front[i] == s[i]);
        }
        lemma_value_bounds(front);
    }
}

/// Zeros write zero.
proof fn lemma_zeros_write_zero(s: Seq<char>)
    requires
        all_zeros(s),
    ensures
        digits_value(s) == 0,
    decreases s.len(),
{
    if s.len() > 0 {
        let front = s.drop_last();
        assert forall|i: int| 0 <= i < front.len() implies #[trigger] front[i] == '0' by {
            assert(front[i] == s[i]);
        }
        lemma_zeros_write_zero(front);
    }
}

/// Digits that begin with another digit than `0` write a number that is at
/// least the power of ten with one less than their count.
proof fn lemma_value_of_significant(s: Seq<char>)
    requires
        all_digits(s),
        s.len() > 0,
        s[0] != '0',
    ensures
        digits_value(s) >= pow10((s.len() - 1) as nat),
{
    let head = s.take(1);
    let rest = s.skip(1);
    assert(s =~= head + rest);
    lemma_value_joins(head, rest);
    assert(digits_value(head.drop_last()) == 0);
    assert forall|i: int| 0 <= i < rest.len() implies is_digit(#[trigger] rest[i]) by {
        assert(rest[i] == s[i + 1]);
    }
    lemma_value_bounds(rest);
    let d = digits_value(head);
    let p = pow10(rest.len());
    assert(d * p >= p) by (nonlinear_arith)
        requires
            d >= 1,
            p >= 0,
    ;
}

/// The zeros at the front of digits do not change the number, and what
/// stands behind them is digits that do not begin with `0`.
proof fn lemma_significant(s: Seq<char>)
    requires
        all_digits(s),
    ensures
        zero_run(s) <= s.len(),
        all_digits(significant(s)),
        significant(s).len() > 0 ==> significant(s)[0] != '0',
        digits_value(significant(s)) == digits_value(s),
    decreases s.len(),
{
    if s.len() > 0 && s[0] == '0' {
        let rest = s.skip(1);
        assert forall|i: int| 0 <= i < rest.len() implies is_digit(#[trigger] rest[i]) by {
            assert(rest[i] == s[i + 1]);
        }
        lemma_significant(rest);
        assert(significant(s) =~= significant(rest));
        let head = s.take(1);
        assert(s =~= head + rest);
        lemma_value_joins(head, rest);
        lemma_zeros_write_zero(head);
    } else {
        assert(significant(s) =~= s);
    }
}

/// Of two texts of digits of one length that agree up to a place where the
/// first has the greater digit, the first writes the greater number.
proof fn lemma_first_difference(x: Seq<char>, y: Seq<char>, at: int)
    requires
        all_digits(x),
        all_digits(y),
        x.len() == y.len(),
        0 <= at < x.len(),
        x.take(at) == y.take(at),
        x[at] > y[at],
    ensures
        digits_value(x) > digits_value(y),
{
    let (xh, xt) = (x.take(at + 1), x.skip(at + 1));
    let (yh, yt) = (y.take(at + 1), y.skip(at + 1));
    assert(x =~= xh + xt);
    assert(y =~= yh + yt);
    lemma_value_joins(xh, xt);
    lemma_value_joins(yh, yt);
    assert(xh.drop_last() =~= x.take(at));
    assert(yh.drop_last() =~= y.take(at));
    assert forall|i: int| 0 <= i < xt.len() implies is_digit(#[trigger] xt[i]) by {
        assert(xt[i] == x[at + 1 + i]);
    }
    assert forall|i: int| 0 <= i < yt.len() implies is_digit(#[trigger] yt[i]) by {
        assert(yt[i] == y[at + 1 + i]);
    }
    lemma_value_bounds(xt);
    lemma_value_bounds(yt);
    let p = pow10(xt.len());
    let (a, b) = (digits_value(xh), digits_value(yh));
    assert(a * p >= b * p + p) by (nonlinear_arith)
        requires
            a >= b + 1,
            p >= 0,
    ;
}

/// Whether the digits `x` write a number that is no less than the number
/// that the digits `y` of the same length write.
fn same_length_ge(x: &Vec<char>, y: &Vec<char>) -> (res: bool)
    requires
        all_digits(x@),
        all_digits(y@),
        x.len() == y.len(),
    ensures
        res == (digits_value(x@) >= digits_value(y@)),
{
    let mut i: usize = 0;
    while i < x.len()
        invariant
            i <= x.len(),
            x.len() == y.len(),
            all_digits(x@),
            all_digits(y@),
            x@.take(i as int) == y@.take(i as int),
        decreases x.len() - i,
    {
        if x[i] > y[i] {
            proof {
                lemma_first_difference(x@, y@, i as int);
            }
            return true;
        }
        if x[i] < y[i] {
            proof {
                lemma_first_difference(y@, x@, i as int);
            }
            return false;
        }
        i += 1;
    }
    assert(x@ =~= x@.take(i as int));
    assert(y@ =~= y@.take(i as int));
    true
}

/// A front of zeros that ends at another character, or at the end of `s`,
/// is the run that [`zero_run`] measures.
proof fn lemma_zero_run(s: Seq<char>, n: int)
    requires
        0 <= n <= s.len(),
        forall|k: int| 0 <= k < n ==> #[trigger] s[k] == '0',
        n == s.len() || s[n] != '0',
    ensures
        zero_run(s) == n,
    decreases n,
{
    if n > 0 {
        let t = s.skip(1);
        assert forall|k: int| 0 <= k < n - 1 implies #[trigger] t[k] == '0' by {
            assert(t[k] == s[k + 1]);
        }
        lemma_zero_run(t, n - 1);
    }
}

/// Digits with zeros behind them write the number of the digits, moved left
/// by the count of the zeros.
proof fn lemma_value_padded(s: Seq<char>, count: nat)
    ensures
        digits_value(s + zeros(count)) == digits_value(s) * pow10(count),
        all_digits(s) ==> all_digits(s + zeros(count)),
{
    lemma_value_joins(s, zeros(count));
    lemma_zeros_write_zero(zeros(count));
}

/// Moving two numbers left by the same count of places keeps their order.
proof fn lemma_same_places(x: int, y: int, places: nat)
    ensures
        (x * pow10(places) >= y * pow10(places)) == (x >= y),
{
    lemma_pow10_adds(places, 0);
    let p = pow10(places) as int;
    assert((x * p >= y * p) == (x >= y)) by (nonlinear_arith)
        requires
            p >= 1,
    ;
}

/// A number of more digits, all places counted, is the greater number.
proof fn lemma_more_places(a: Seq<char>, za: nat, b: Seq<char>, zb: nat)
    requires
        all_digits(a),
        all_digits(b),
        a.len() > 0,
        a[0] != '0',
        a.len() + za > b.len() + zb,
    ensures
        digits_value(a) * pow10(za) > digits_value(b) * pow10(zb),
{
    lemma_value_of_significant(a);
    lemma_value_bounds(b);
    lemma_pow10_adds((a.len() - 1) as nat, za);
    lemma_pow10_adds(b.len(), zb);
    lemma_pow10_grows(b.len() + zb, (a.len() - 1 + za) as nat);
    lemma_pow10_adds(za, 0);
    lemma_pow10_adds(zb, 0);
    let (x, p) = (digits_value(a), pow10(za) as int);
    let (y, q) = (digits_value(b), pow10(zb) as int);
    let (low, high) = (pow10((a.len() - 1) as nat) as int, pow10(b.len()) as int);
    assert(x * p >= low * p) by (nonlinear_arith)
        requires
            x >= low,
            p >= 1,
    ;
    assert(y * q < high * q) by (nonlinear_arith)
        requires
            y < high,
            q >= 1,
    ;
}

/// `digits` without the zeros at its front.
pub fn strip_zeros(digits: &Vec<char>) -> (out: Vec<char>)
    ensures
        out@ == significant(digits@),
{
    let mut k: usize = 0;
    while k < digits.len() && digits[k] == '0'
        invariant
            k <= digits.len(),
            forall|j: int| 0 <= j < k ==> #[trigger] digits@[j] == '0',
        decreases digits.len() - k,
    {
        k += 1;
    }
    proof {
        lemma_zero_run(digits@, k as int);
    }
    let mut out: Vec<char> = Vec::new();
    let mut i: usize = k;
    while i < digits.len()
        invariant
            k <= i <= digits.len(),
            out@ == digits@.subrange(k as int, i as int),
        decreases digits.len() - i,
    {
        out.push(digits[i]);
        i += 1;
    }
    out
}

/// `digits` with `count` zeros behind them.
pub fn pad_zeros(digits: Vec<char>, count: usize) -> (out: Vec<char>)
    ensures
        out@ == digits@ + zeros(count as nat),
{
    let mut out = digits;
    let mut i: usize = 0;
    while i < count
        invariant
            i <= count,
            out@ == digits@ + zeros(i as nat),
        decreases count - i,
    {
        out.push('0');
        i += 1;
    }
    out
}

/// Whether `chars` are decimal digits only.
pub fn digits_only(chars: &Vec<char>) -> (res: bool)
    ensures
        res == all_digits(chars@),
{
    let mut i: usize = 0;
    while i < chars.len()
        invariant
            i <= chars.len(),
            forall|k: int| 0 <= k < i ==> is_digit(#[trigger] chars@[k]),
        decreases chars.len() - i,
    {
        if !digit(chars[i]) {
            return false;
        }
        i += 1;
    }
    true
}

/// Whether `a` and `b` are digits, `za` and `zb` are no more than
/// [`MOST_PLACES`], and the number that `a` writes, moved left by `za`
/// places, is no less than the number that `b` writes, moved left by `zb`
/// places.
pub fn scaled_ge(a: &Vec<char>, za: u128, b: &Vec<char>, zb: u128) -> (res: bool)
    ensures
        res == (all_digits(a@) && all_digits(b@) && za <= MOST_PLACES && zb <= MOST_PLACES
            && digits_value(a@) * pow10(za as nat) >= digits_value(b@) * pow10(zb as nat)),
{
    za <= MOST_PLACES && zb <= MOST_PLACES && digits_only(a) && digits_only(b) && digits_ge(
        a,
        za,
        b,
        zb,
    )
}

/// Whether the number that the digits `a` write, moved left by `za` places,
/// is no less than the number that the digits `b` write, moved left by `zb`
/// places.
pub(crate) fn digits_ge(a: &Vec<char>, za: u128, b: &Vec<char>, zb: u128) -> (res: bool)
    requires
        all_digits(a@),
        all_digits(b@),
        za <= MOST_PLACES,
        zb <= MOST_PLACES,
    ensures
        res == (digits_value(a@) * pow10(za as nat) >= digits_value(b@) * pow10(zb as nat)),
{
    let sa = strip_zeros(a);
    let sb = strip_zeros(b);
    proof {
        lemma_significant(a@);
        lemma_significant(b@);
        lemma_value_bounds(sa@);
        lemma_value_bounds(sb@);
        lemma_pow10_adds(za as nat, 0);
        lemma_pow10_adds(zb as nat, 0);
    }
    let ghost (x, p) = (digits_value(sa@), pow10(za as nat) as int);
    let ghost (y, q) = (digits_value(sb@), pow10(zb as nat) as int);
    if sb.len() == 0 {
        assert(x * p >= y * q) by (nonlinear_arith)
            requires
                x >= 0,
                p >= 1,
                y == 0,
        ;
        return true;
    }
    if sa.len() == 0 {
        proof {
            lemma_value_of_significant(sb@);
            lemma_pow10_adds((sb.len() - 1) as nat, 0);
        }
        assert(x * p < y * q) by (nonlinear_arith)
            requires
                x == 0,
                y >= 1,
                q >= 1,
        ;
        return false;
    }
    let la: u128 = sa.len() as u128 + za;
    let lb: u128 = sb.len() as u128 + zb;
    if la > lb {
        proof {
            lemma_more_places(sa@, za as nat, sb@, zb as nat);
        }
        return true;
    }
    if la < lb {
        proof {
            lemma_more_places(sb@, zb as nat, sa@, za as nat);
        }
        return false;
    }
    let longest = if sa.len() > sb.len() { sa.len() } else { sb.len() };
    let (pa, pb) = (longest - sa.len(), longest - sb.len());
    let ghost rest = (la - longest as u128) as nat;
    let padded_a = pad_zeros(sa, pa);
    let padded_b = pad_zeros(sb, pb);
    proof {
        lemma_value_padded(sa@, pa as nat);
        lemma_value_padded(sb@, pb as nat);
        lemma_pow10_adds(pa as nat, rest);
        lemma_pow10_adds(pb as nat, rest);
        lemma_same_places(digits_value(padded_a@), digits_value(padded_b@), rest);
        let r = pow10(rest) as int;
        let (u, v) = (pow10(pa as nat) as int, pow10(pb as nat) as int);
        assert(x * (u * r) == (x * u) * r) by (nonlinear_arith);
        assert(y * (v * r) == (y * v) * r) by (nonlinear_arith);
    }
    same_length_ge(&padded_a, &padded_b)
}

} // verus!
