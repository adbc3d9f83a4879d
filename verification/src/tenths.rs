//! Rounding to tenths, and writing tenths with one digit after the point.
//!
//! The mean of a station is rounded up to the next tenth; its least and
//! greatest value are rounded to the nearest tenth. Both roundings are
//! exact: they work on whole numbers of units, never on approximations.

use vstd::prelude::*;
use vstd::arithmetic::div_mod::lemma_fundamental_div_mod;
use vstd::arithmetic::div_mod::lemma_fundamental_div_mod_converse;
use vstd::slice::slice_subrange;
use crate::decimal::Units;
use crate::digits::sum_of;
use crate::digits::all_digits;
use crate::digits::decimal_digits;
use crate::digits::digits_value;
use crate::digits::divide;
use crate::digits::lemma_digits_value_bound;
use crate::digits::lemma_digits_value_joined;
use crate::digits::lemma_pow10_positive;
use crate::digits::lemma_single_digit;
use crate::digits::lemma_zeros_joined;
use crate::digits::less;
use crate::digits::pow10;
use crate::digits::subtract;
use crate::digits::write_number;
use crate::digits::zero_digits;
use crate::digits::zeros;
use crate::text::to_owned_bytes;
use crate::text::DIGIT_ZERO;
use crate::text::MINUS;
use crate::text::POINT;

verus! {

/// How many units make one tenth, when ten to the power `scale` make one.
/// The scale is at least one.
pub open spec fn tenth_units(scale: nat) -> nat {
    pow10((scale - 1) as nat)
}

/// The least integer `q` with `q * d >= a`, for positive `d`.
pub open spec fn ceil_div(a: int, d: int) -> int {
    -((-a) / d)
}

/// The mean `sum / count` of values given in units, rounded up (towards
/// positive infinity) to a whole number of tenths of `tenth` units each.
pub open spec fn mean_tenths(sum: int, count: int, tenth: int) -> int {
    ceil_div(sum, count * tenth)
}

/// The absolute value of an integer.
pub open spec fn abs(a: int) -> nat {
    if a < 0 {
        (-a) as nat
    } else {
        a as nat
    }
}

/// A magnitude in units rounded to the nearest whole number of tenths; a
/// magnitude halfway between two tenths goes to the even one.
pub open spec fn nearest_tenths(magnitude: nat, tenth: nat) -> nat {
    let below = magnitude / tenth;
    let rest = magnitude % tenth;
    if 2 * rest > tenth || (2 * rest == tenth && below % 2 == 1) {
        below + 1
    } else {
        below
    }
}

/// A value in units rounded to the nearest tenth, as a signed number of
/// tenths.
pub open spec fn value_tenths(value: int, tenth: nat) -> int {
    if value < 0 {
        -(nearest_tenths(abs(value), tenth) as int)
    } else {
        nearest_tenths(abs(value), tenth) as int
    }
}

/// `ceil_div(a, d)` times `d` reaches `a`, and one less does not.
pub proof fn lemma_ceil_div_reaches(a: int, d: int)
    requires
        d > 0,
    ensures
        ceil_div(a, d) * d >= a,
        (ceil_div(a, d) - 1) * d < a,
{
    let f = (-a) / d;
    lemma_fundamental_div_mod(-a, d);
    vstd::arithmetic::div_mod::lemma_mod_bound(-a, d);
    assert((-f) * d == -(d * f)) by (nonlinear_arith);
    assert((-f - 1) * d == -(d * f) - d) by (nonlinear_arith);
}

/// No integer below `ceil_div(a, d)` reaches `a` when multiplied by `d`.
pub proof fn lemma_ceil_div_is_least(a: int, d: int, q: int)
    requires
        d > 0,
        q * d >= a,
    ensures
        q >= ceil_div(a, d),
{
    let c = ceil_div(a, d);
    lemma_ceil_div_reaches(a, d);
    if q < c {
        assert(q * d <= (c - 1) * d) by (nonlinear_arith)
            requires
                q <= c - 1,
                d > 0,
        ;
    }
}

/// Rounding up a number that is `q * d + r` with `0 <= r < d` gives `q`
/// when `r` is zero and `q + 1` otherwise.
pub proof fn lemma_ceil_div_of_parts(a: int, d: int, q: int, r: int)
    requires
        d > 0,
        0 <= r < d,
        a == q * d + r,
    ensures
        ceil_div(a, d) == if r == 0 {
            q
        } else {
            q + 1
        },
{
    let c = ceil_div(a, d);
    lemma_ceil_div_reaches(a, d);
    if r == 0 {
        lemma_ceil_div_is_least(a, d, q);
        assert(c > q - 1) by (nonlinear_arith)
            requires
                c * d >= q * d,
                d > 0,
        ;
    } else {
        assert((q + 1) * d == q * d + d) by (nonlinear_arith);
        lemma_ceil_div_is_least(a, d, q + 1);
        assert(c > q) by (nonlinear_arith)
            requires
                c * d > q * d,
                d > 0,
        ;
    }
}

/// Rounding to the nearest tenth moves a magnitude by at most half a tenth.
pub proof fn lemma_nearest_tenths_is_near(magnitude: nat, tenth: nat)
    requires
        tenth > 0,
    ensures
        2 * (nearest_tenths(magnitude, tenth) * tenth) - tenth <= 2 * magnitude,
        2 * magnitude <= 2 * (nearest_tenths(magnitude, tenth) * tenth) + tenth,
{
    lemma_fundamental_div_mod(magnitude as int, tenth as int);
    vstd::arithmetic::div_mod::lemma_mod_bound(magnitude as int, tenth as int);
    let below = magnitude / tenth;
    assert(tenth * below == below * tenth && (below + 1) * tenth == below * tenth + tenth)
        by (nonlinear_arith);
}

/// Rounding a value up gives at least what rounding it to the nearest
/// tenth gives.
pub proof fn lemma_nearest_at_most_up(value: int, tenth: nat)
    requires
        tenth > 0,
    ensures
        value_tenths(value, tenth) <= ceil_div(value, tenth as int),
{
    let t = tenth as int;
    lemma_ceil_div_reaches(value, t);
    lemma_nearest_tenths_is_near(abs(value), tenth);
    let up = ceil_div(value, t);
    let near = value_tenths(value, tenth);
    let m = nearest_tenths(abs(value), tenth) as int;
    assert(near * t == if value < 0 {
        -(m * t)
    } else {
        m * t
    }) by (nonlinear_arith)
        requires
            near == if value < 0 {
                -m
            } else {
                m
            },
    ;
    if near > up {
        assert(near * t >= up * t + t) by (nonlinear_arith)
            requires
                near >= up + 1,
                t > 0,
        ;
    }
}

/// A number of tenths written with exactly one digit after the decimal
/// point, with a leading minus sign when it is marked negative.
pub open spec fn tenths_text(negative: bool, magnitude: nat) -> Seq<u8> {
    let sign = if negative {
        seq![MINUS]
    } else {
        Seq::<u8>::empty()
    };
    sign + decimal_digits(magnitude / 10) + seq![POINT, (DIGIT_ZERO + magnitude % 10) as u8]
}

/// How a value in units is shown: rounded to the nearest tenth, under the
/// sign of the value itself.
pub open spec fn value_text(value: int, tenth: nat) -> Seq<u8> {
    tenths_text(value < 0, nearest_tenths(abs(value), tenth))
}

/// How the mean of `count` values whose total is `sum` units is shown:
/// rounded up to the next tenth, under the sign of the total.
pub open spec fn mean_text(sum: int, count: int, tenth: int) -> Seq<u8> {
    tenths_text(sum < 0, abs(mean_tenths(sum, count, tenth)))
}

/// A number of tenths of any size with an explicit sign, ready to be
/// written with one digit after the decimal point. The sign is that of the
/// exact value the tenths were rounded from, so a negative value that
/// rounds to zero keeps its minus sign.
#[derive(Debug, PartialEq, Eq)]
pub struct Tenths {
    pub negative: bool,
    pub digits: Vec<u8>,
}

impl Tenths {
    /// The digits are decimal digits, at least one.
    pub open spec fn well_formed(&self) -> bool {
        all_digits(self.digits@) && self.digits@.len() >= 1
    }

    /// How many tenths, without the sign.
    pub open spec fn magnitude(&self) -> nat {
        digits_value(self.digits@)
    }

    /// How the tenths are written.
    pub open spec fn text(&self) -> Seq<u8> {
        tenths_text(self.negative, self.magnitude())
    }
}

/// The digit one followed by `n` zeros: ten to the power `n`.
fn power_of_ten(n: usize) -> (digits: Vec<u8>)
    ensures
        all_digits(digits@),
        digits_value(digits@) == pow10(n as nat),
{
    let mut digits: Vec<u8> = Vec::new();
    digits.push(DIGIT_ZERO + 1);
    let mut i: usize = 0;
    assert(digits@ =~= seq![(DIGIT_ZERO + 1) as u8] + zeros(0));
    while i < n
        invariant
            i <= n,
            digits@ == seq![(DIGIT_ZERO + 1) as u8] + zeros(i as nat),
        decreases n - i,
    {
        digits.push(DIGIT_ZERO);
        assert(digits@ =~= seq![(DIGIT_ZERO + 1) as u8] + zeros((i + 1) as nat));
        i += 1;
    }
    proof {
        let one = seq![(DIGIT_ZERO + 1) as u8];
        lemma_single_digit(one);
        lemma_zeros_joined(one, n as nat);
        assert(1 * pow10(n as nat) == pow10(n as nat)) by (nonlinear_arith);
    }
    digits
}

/// Parts a number of units into its whole tenths and what is left over.
fn split_tenths(digits: &[u8], scale: usize) -> (parts: (&[u8], &[u8]))
    requires
        all_digits(digits@),
        1 <= scale <= digits@.len(),
    ensures
        all_digits(parts.0@),
        all_digits(parts.1@),
        parts.0@.len() >= 1,
        digits_value(parts.0@) == digits_value(digits@) / tenth_units(scale as nat),
        digits_value(parts.1@) == digits_value(digits@) % tenth_units(scale as nat),
        tenth_units(scale as nat) > 0,
{
    let cut: usize = digits.len() - (scale - 1);
    let front = slice_subrange(digits, 0, cut);
    let back = slice_subrange(digits, cut, digits.len());
    proof {
        assert(digits@ =~= front@ + back@);
        lemma_digits_value_joined(front@, back@);
        lemma_digits_value_bound(back@);
        lemma_pow10_positive((scale - 1) as nat);
        lemma_fundamental_div_mod_converse(
            digits_value(digits@) as int,
            tenth_units(scale as nat) as int,
            digits_value(front@) as int,
            digits_value(back@) as int,
        );
    }
    (front, back)
}

/// Rounds the mean of `count` values up to the next tenth. The total of
/// the values is `gains - losses` units, of which ten to the power `scale`
/// make one. The result is never below the exact mean; a mean of -5.01
/// becomes -5.0.
pub fn round_up(gains: &[u8], losses: &[u8], count: u64, scale: usize) -> (t: Tenths)
    requires
        all_digits(gains@),
        all_digits(losses@),
        count >= 1,
        scale >= 1,
        gains@.len() >= scale || losses@.len() >= scale,
    ensures
        t.well_formed(),
        t.negative == (digits_value(gains@) < digits_value(losses@)),
        t.magnitude() == abs(
            mean_tenths(
                digits_value(gains@) - digits_value(losses@),
                count as int,
                tenth_units(scale as nat) as int,
            ),
        ),
        t.text() == mean_text(
            digits_value(gains@) - digits_value(losses@),
            count as int,
            tenth_units(scale as nat) as int,
        ),
{
    let (difference, negative) = subtract(gains, losses);
    let magnitude: Vec<u8> = if negative {
        subtract(losses, gains).0
    } else {
        difference
    };
    let (front, back) = split_tenths(magnitude.as_slice(), scale);
    let (quotient, left) = divide(front, count);
    let exact: bool = left == 0 && !less(zero_digits(0).as_slice(), back);
    let ghost sum = digits_value(gains@) - digits_value(losses@);
    let ghost tenth = tenth_units(scale as nat) as int;
    let ghost d = count * tenth;
    let ghost m = digits_value(magnitude@) as int;
    let ghost q = digits_value(quotient@) as int;
    let ghost r = tenth * left + digits_value(back@);
    proof {
        assert(digits_value(zeros(0)) == 0);
        lemma_fundamental_div_mod(m, tenth);
        assert(m == q * d + r && 0 <= r < d && d > 0 && (r == 0 <==> (left == 0 && digits_value(
            back@,
        ) == 0))) by (nonlinear_arith)
            requires
                m == tenth * digits_value(front@) + digits_value(back@),
                digits_value(front@) == q * count + left,
                0 <= left < count,
                0 <= digits_value(back@) < tenth,
                d == count * tenth,
                r == tenth * left + digits_value(back@),
        ;
        lemma_ceil_div_of_parts(m, d, q, r);
        lemma_fundamental_div_mod_converse(m, d, q, r);
        if negative {
            assert(sum == -m);
            assert(ceil_div(sum, d) == -q);
        }
    }
    if negative || exact {
        Tenths { negative, digits: quotient }
    } else {
        let one = power_of_ten(0);
        assert(pow10(0) == 1);
        Tenths { negative, digits: sum_of(quotient.as_slice(), one.as_slice()) }
    }
}

/// A number of units rounded to the nearest tenth, halfway cases to the
/// even tenth.
fn nearest_digits(digits: &[u8], scale: usize) -> (tenths: Vec<u8>)
    requires
        all_digits(digits@),
        1 <= scale <= digits@.len(),
    ensures
        all_digits(tenths@),
        tenths@.len() >= 1,
        digits_value(tenths@) == nearest_tenths(digits_value(digits@), tenth_units(scale as nat)),
{
    let (front, back) = split_tenths(digits, scale);
    let twice = sum_of(back, back);
    let tenth = power_of_ten(scale - 1);
    let more: bool = less(tenth.as_slice(), twice.as_slice());
    let fewer: bool = less(twice.as_slice(), tenth.as_slice());
    let odd: bool = (front[front.len() - 1] - DIGIT_ZERO) % 2 == 1;
    assert(odd == (digits_value(front@) % 2 == 1));
    if more || (!fewer && odd) {
        let one = power_of_ten(0);
        assert(pow10(0) == 1);
        sum_of(front, one.as_slice())
    } else {
        to_owned_bytes(front)
    }
}

/// Rounds a value in units to the nearest tenth, halfway cases to the even
/// tenth. The sign of the value is kept even when the tenths are zero.
pub fn round_nearest(value: &Units, scale: usize) -> (t: Tenths)
    requires
        scale >= 1,
        value.well_formed(scale as nat),
    ensures
        t.well_formed(),
        t.negative == (value@ < 0),
        t.magnitude() == nearest_tenths(abs(value@), tenth_units(scale as nat)),
        t.text() == value_text(value@, tenth_units(scale as nat)),
{
    let negative: bool = value.is_below_zero();
    assert(abs(value@) == digits_value(value.digits@));
    Tenths { negative, digits: nearest_digits(value.digits.as_slice(), scale) }
}

/// Appends a number of tenths to `out`, with one digit after the point.
pub fn write_tenths(out: &mut Vec<u8>, t: &Tenths)
    requires
        t.well_formed(),
    ensures
        final(out)@ == old(out)@ + t.text(),
{
    if t.negative {
        out.push(MINUS);
    }
    let last: usize = t.digits.len() - 1;
    write_number(out, slice_subrange(t.digits.as_slice(), 0, last));
    out.push(POINT);
    out.push(t.digits[last]);
    proof {
        assert(t.digits@.subrange(0, last as int) =~= t.digits@.drop_last());
        assert(out@ =~= old(out)@ + t.text());
    }
}

} // verus!
