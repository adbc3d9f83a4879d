//! Decimal numbers as text, read exactly.
//!
//! A number may have any number of digits before and after the point.
//! It is held as its sign, all its digits, and the count of those that
//! stand after the point; nothing is rounded and nothing is cut off.

use vstd::prelude::*;
use vstd::slice::slice_subrange;
use crate::digits::all_digits;
use crate::digits::digits_value;
use crate::digits::lemma_pow10_adds;
use crate::digits::lemma_zeros_joined;
use crate::digits::less;
use crate::digits::only_digits;
use crate::digits::zero_digits;
use crate::digits::pow10;
use crate::digits::zeros;
use crate::error::ParseError;
use crate::text::find_from;
use crate::text::to_owned_bytes;
use crate::text::first_index_from;
use crate::text::MINUS;
use crate::text::PLUS;
use crate::text::POINT;
use crate::text::DIGIT_ZERO;

verus! {

/// How many bytes the sign takes: one for a leading `-` or `+`, else none.
pub open spec fn sign_len(text: Seq<u8>) -> int {
    if text.len() > 0 && (text[0] == MINUS || text[0] == PLUS) {
        1
    } else {
        0
    }
}

/// Whether the text starts with a minus sign.
pub open spec fn is_negative(text: Seq<u8>) -> bool {
    text.len() > 0 && text[0] == MINUS
}

/// Where the decimal point stands: at the first `.` after the sign, or at
/// the end of the text when it holds none.
pub open spec fn point_at(text: Seq<u8>) -> int {
    first_index_from(text, POINT, sign_len(text))
}

/// What stands between the sign and the decimal point.
pub open spec fn whole_digits(text: Seq<u8>) -> Seq<u8> {
    text.subrange(sign_len(text), point_at(text))
}

/// What stands after the decimal point.
pub open spec fn fraction_digits(text: Seq<u8>) -> Seq<u8> {
    if point_at(text) < text.len() {
        text.subrange(point_at(text) + 1, text.len() as int)
    } else {
        Seq::<u8>::empty()
    }
}

/// Whether the text is a decimal number: an optional sign, digits, and
/// optionally a point followed by digits, with at least one digit in all.
pub open spec fn is_decimal(text: Seq<u8>) -> bool {
    &&& all_digits(whole_digits(text))
    &&& all_digits(fraction_digits(text))
    &&& whole_digits(text).len() + fraction_digits(text).len() > 0
}

/// The number that a decimal text denotes, counted in units of which ten
/// to the power `scale` make one. It is a whole number of units when the
/// text has no more than `scale` digits after the point.
pub open spec fn units_at(text: Seq<u8>, scale: nat) -> int {
    let magnitude = digits_value(whole_digits(text) + fraction_digits(text)) * pow10(
        (scale - fraction_digits(text).len()) as nat,
    );
    if is_negative(text) {
        -(magnitude as int)
    } else {
        magnitude as int
    }
}

/// The units of a decimal text are exact: with `k` digits after the point
/// the text denotes the number read from all its digits divided by ten to
/// the power `k`, and its units at `scale` are ten to the power `scale`
/// times that.
pub proof fn lemma_units_are_exact(text: Seq<u8>, scale: nat)
    requires
        fraction_digits(text).len() <= scale,
    ensures
        units_at(text, scale) * pow10(fraction_digits(text).len()) == (if is_negative(text) {
            -1int
        } else {
            1int
        }) * digits_value(whole_digits(text) + fraction_digits(text)) * pow10(scale),
{
    let k = fraction_digits(text).len();
    let more = (scale - k) as nat;
    let d = digits_value(whole_digits(text) + fraction_digits(text));
    lemma_pow10_adds(more, k);
    assert((d * pow10(more)) * pow10(k) == d * pow10(scale) && (-((d * pow10(more)) as int))
        * pow10(k) == -1int * d * pow10(scale)) by (nonlinear_arith)
        requires
            pow10(scale) == pow10(more) * pow10(k),
    ;
    assert(1int * d * pow10(scale) == d * pow10(scale)) by (nonlinear_arith);
}

/// A whole number of units of any size, with its sign.
#[derive(Debug, PartialEq, Eq)]
pub struct Units {
    pub negative: bool,
    pub digits: Vec<u8>,
}

impl View for Units {
    type V = int;

    open spec fn view(&self) -> int {
        if self.negative {
            -(digits_value(self.digits@) as int)
        } else {
            digits_value(self.digits@) as int
        }
    }
}

impl Units {
    /// The digits are decimal digits, at least `scale` of them.
    pub open spec fn well_formed(&self, scale: nat) -> bool {
        all_digits(self.digits@) && self.digits@.len() >= scale
    }

    /// Whether this number is smaller than the other.
    pub fn is_less(&self, other: &Units) -> (smaller: bool)
        requires
            all_digits(self.digits@),
            all_digits(other.digits@),
        ensures
            smaller == (self@ < other@),
    {
        if self.negative && other.negative {
            less(other.digits.as_slice(), self.digits.as_slice())
        } else if self.negative {
            let nothing = zero_digits(0);
            assert(digits_value(zeros(0)) == 0);
            less(nothing.as_slice(), self.digits.as_slice()) || less(
                nothing.as_slice(),
                other.digits.as_slice(),
            )
        } else if other.negative {
            false
        } else {
            less(self.digits.as_slice(), other.digits.as_slice())
        }
    }

    /// Whether this number is below zero.
    pub fn is_below_zero(&self) -> (below: bool)
        requires
            all_digits(self.digits@),
        ensures
            below == (self@ < 0),
    {
        let nothing = zero_digits(0);
        assert(digits_value(zeros(0)) == 0);
        self.negative && less(nothing.as_slice(), self.digits.as_slice())
    }

    /// A copy of this number.
    pub fn copy(&self) -> (same: Units)
        ensures
            same.negative == self.negative,
            same.digits@ == self.digits@,
    {
        Units { negative: self.negative, digits: to_owned_bytes(self.digits.as_slice()) }
    }
}

/// A decimal number as it was written: its sign, all its digits, and how
/// many of them stand after the point.
#[derive(Debug, PartialEq, Eq)]
pub struct Decimal {
    pub negative: bool,
    pub digits: Vec<u8>,
    pub scale: usize,
}

impl Decimal {
    /// The digits are decimal digits, and those after the point are among
    /// them.
    pub open spec fn well_formed(&self) -> bool {
        all_digits(self.digits@) && self.scale <= self.digits@.len()
    }

    /// The number in units of which ten to the power `scale` make one.
    pub open spec fn units_at(&self, scale: nat) -> int {
        let magnitude = digits_value(self.digits@) * pow10((scale - self.scale) as nat);
        if self.negative {
            -(magnitude as int)
        } else {
            magnitude as int
        }
    }

    /// Whether this is what the decimal text holds.
    pub open spec fn reads(&self, text: Seq<u8>) -> bool {
        &&& self.negative == is_negative(text)
        &&& self.digits@ == whole_digits(text) + fraction_digits(text)
        &&& self.scale == fraction_digits(text).len()
    }

    /// The number in units of which ten to the power `scale` make one.
    pub fn units(&self, scale: usize) -> (units: Units)
        requires
            self.well_formed(),
            self.scale <= scale,
        ensures
            units.well_formed(scale as nat),
            units@ == self.units_at(scale as nat),
    {
        let mut digits: Vec<u8> = Vec::new();
        let mut i: usize = 0;
        while i < self.digits.len()
            invariant
                i <= self.digits@.len(),
                digits@ == self.digits@.take(i as int),
            decreases self.digits@.len() - i,
        {
            digits.push(self.digits[i]);
            assert(digits@ =~= self.digits@.take(i as int + 1));
            i += 1;
        }
        let more: usize = scale - self.scale;
        let mut k: usize = 0;
        assert(digits@ =~= self.digits@ + zeros(0));
        while k < more
            invariant
                k <= more,
                digits@ == self.digits@ + zeros(k as nat),
            decreases more - k,
        {
            digits.push(DIGIT_ZERO);
            assert(digits@ =~= self.digits@ + zeros((k + 1) as nat));
            k += 1;
        }
        proof {
            lemma_zeros_joined(self.digits@, more as nat);
        }
        Units { negative: self.negative, digits }
    }
}

/// Reads a decimal number: an optional `+` or `-`, digits, and optionally
/// a point and more digits, with at least one digit before or after the
/// point. Every such text is read, whatever its length, and read exactly;
/// any other text is refused.
pub fn parse_value(text: &[u8]) -> (value: Result<Decimal, ParseError>)
    ensures
        match value {
            Ok(decimal) => is_decimal(text@) && decimal.reads(text@) && decimal.well_formed(),
            Err(kind) => !is_decimal(text@) && kind == ParseError::InvalidNumber,
        },
{
    let n: usize = text.len();
    let start: usize = if n > 0 && (text[0] == MINUS || text[0] == PLUS) {
        1
    } else {
        0
    };
    let negative: bool = n > 0 && text[0] == MINUS;
    let point: usize = find_from(text, POINT, start);
    let whole = slice_subrange(text, start, point);
    let fraction = if point < n {
        slice_subrange(text, point + 1, n)
    } else {
        slice_subrange(text, n, n)
    };
    assert(fraction@ =~= fraction_digits(text@));
    if !only_digits(whole) || !only_digits(fraction) || (whole.len() == 0 && fraction.len() == 0) {
        return Err(ParseError::InvalidNumber);
    }
    let mut digits: Vec<u8> = Vec::new();
    let mut i: usize = 0;
    while i < whole.len()
        invariant
            i <= whole@.len(),
            digits@ == whole@.take(i as int),
        decreases whole@.len() - i,
    {
        digits.push(whole[i]);
        assert(digits@ =~= whole@.take(i as int + 1));
        i += 1;
    }
    let mut k: usize = 0;
    assert(digits@ =~= whole@ + fraction@.take(0));
    while k < fraction.len()
        invariant
            k <= fraction@.len(),
            digits@ == whole@ + fraction@.take(k as int),
        decreases fraction@.len() - k,
    {
        digits.push(fraction[k]);
        assert(digits@ =~= whole@ + fraction@.take(k as int + 1));
        k += 1;
    }
    assert(fraction@.take(k as int) =~= fraction@);
    Ok(Decimal { negative, digits, scale: fraction.len() })
}

} // verus!
