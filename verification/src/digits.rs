//! Natural numbers of any size, held as strings of decimal digits with the
//! most significant digit first, and exact arithmetic on them.

use vstd::prelude::*;
use crate::text::DIGIT_NINE;
use crate::text::DIGIT_ZERO;

verus! {

/// Whether a byte is a decimal digit.
pub open spec fn is_digit(byte: u8) -> bool {
    DIGIT_ZERO <= byte <= DIGIT_NINE
}

/// Whether every byte is a decimal digit.
pub open spec fn all_digits(s: Seq<u8>) -> bool {
    forall|i: int| 0 <= i < s.len() ==> is_digit(#[trigger] s[i])
}

/// The number that a string of decimal digits denotes; zero for none.
pub open spec fn digits_value(s: Seq<u8>) -> nat
    decreases s.len(),
{
    if s.len() == 0 {
        0
    } else {
        digits_value(s.drop_last()) * 10 + (s.last() - DIGIT_ZERO) as nat
    }
}

/// Ten to the power `n`.
pub open spec fn pow10(n: nat) -> nat
    decreases n,
{
    if n == 0 {
        1
    } else {
        10 * pow10((n - 1) as nat)
    }
}

/// A string of `n` zeros.
pub open spec fn zeros(n: nat) -> Seq<u8> {
    Seq::new(n, |i: int| DIGIT_ZERO)
}

/// A single digit denotes itself.
pub proof fn lemma_single_digit(s: Seq<u8>)
    requires
        s.len() == 1,
    ensures
        digits_value(s) == (s[0] - DIGIT_ZERO) as nat,
{
    assert(s.drop_last() =~= Seq::<u8>::empty());
    assert(digits_value(s.drop_last()) == 0);
}

/// Reading one more digit multiplies the value by ten and adds the digit.
pub proof fn lemma_digits_value_step(s: Seq<u8>, i: int)
    requires
        0 <= i < s.len(),
    ensures
        digits_value(s.take(i + 1)) == digits_value(s.take(i)) * 10 + (s[i] - DIGIT_ZERO) as nat,
{
    assert(s.take(i + 1).drop_last() =~= s.take(i));
}

/// The value of a prefix of a digit string is at most that of the whole.
pub proof fn lemma_digits_value_prefix(s: Seq<u8>, i: int)
    requires
        all_digits(s),
        0 <= i <= s.len(),
    ensures
        digits_value(s.take(i)) <= digits_value(s),
    decreases s.len() - i,
{
    if i < s.len() {
        lemma_digits_value_step(s, i);
        lemma_digits_value_prefix(s, i + 1);
    } else {
        assert(s.take(i) =~= s);
    }
}

/// A string of `n` digits denotes a number below ten to the power `n`.
pub proof fn lemma_digits_value_bound(s: Seq<u8>)
    requires
        all_digits(s),
    ensures
        digits_value(s) < pow10(s.len()),
    decreases s.len(),
{
    if s.len() > 0 {
        lemma_digits_value_bound(s.drop_last());
    }
}

/// Powers of ten are positive.
pub proof fn lemma_pow10_positive(n: nat)
    ensures
        pow10(n) > 0,
    decreases n,
{
    if n > 0 {
        lemma_pow10_positive((n - 1) as nat);
    }
}

/// Powers of ten multiply as their exponents add.
pub proof fn lemma_pow10_adds(a: nat, b: nat)
    ensures
        pow10(a + b) == pow10(a) * pow10(b),
    decreases b,
{
    if b == 0 {
        assert(pow10(a) * 1 == pow10(a)) by (nonlinear_arith);
    } else {
        let less = (b - 1) as nat;
        lemma_pow10_adds(a, less);
        assert(pow10(a + b) == 10 * pow10(a + less));
        assert(10 * (pow10(a) * pow10(less)) == pow10(a) * (10 * pow10(less))) by (nonlinear_arith);
    }
}

/// Digits written after a number shift it by one power of ten each.
pub proof fn lemma_digits_value_joined(front: Seq<u8>, back: Seq<u8>)
    ensures
        digits_value(front + back) == digits_value(front) * pow10(back.len()) + digits_value(back),
    decreases back.len(),
{
    if back.len() == 0 {
        assert(front + back =~= front);
        assert(digits_value(front) * 1 == digits_value(front)) by (nonlinear_arith);
    } else {
        let shorter = back.drop_last();
        lemma_digits_value_joined(front, shorter);
        assert((front + back).drop_last() =~= front + shorter);
        assert((front + back).last() == back.last());
        assert(pow10(back.len()) == 10 * pow10(shorter.len()));
        assert((digits_value(front) * pow10(shorter.len()) + digits_value(shorter)) * 10
            == digits_value(front) * (10 * pow10(shorter.len())) + digits_value(shorter) * 10)
            by (nonlinear_arith);
    }
}

/// A string of zeros denotes zero.
pub proof fn lemma_zeros_value(s: Seq<u8>)
    requires
        forall|i: int| 0 <= i < s.len() ==> s[i] == DIGIT_ZERO,
    ensures
        digits_value(s) == 0,
    decreases s.len(),
{
    if s.len() > 0 {
        lemma_zeros_value(s.drop_last());
    }
}

/// Zeros written after a number multiply it by a power of ten; zeros
/// written before it change nothing.
pub proof fn lemma_zeros_joined(s: Seq<u8>, n: nat)
    ensures
        digits_value(s + zeros(n)) == digits_value(s) * pow10(n),
        digits_value(zeros(n) + s) == digits_value(s),
{
    lemma_zeros_value(zeros(n));
    lemma_digits_value_joined(s, zeros(n));
    lemma_digits_value_joined(zeros(n), s);
    assert(0 * pow10(s.len()) == 0) by (nonlinear_arith);
}

/// The number held by the last `n` digits; by all of them when there are
/// no more than `n`.
pub open spec fn low(s: Seq<u8>, n: nat) -> nat {
    if n >= s.len() {
        digits_value(s)
    } else {
        digits_value(s.subrange(s.len() - n, s.len() as int))
    }
}

/// The digit at place `i` counted from the right, zero beyond the string.
pub open spec fn digit_from_right(s: Seq<u8>, i: nat) -> nat {
    if i < s.len() {
        (s[s.len() - 1 - i] - DIGIT_ZERO) as nat
    } else {
        0
    }
}

/// One more digit from the right adds that digit times its power of ten.
pub proof fn lemma_low_step(s: Seq<u8>, i: nat)
    requires
        all_digits(s),
    ensures
        low(s, i + 1) == digit_from_right(s, i) * pow10(i) + low(s, i),
{
    if i < s.len() {
        let n = s.len() as int;
        let suffix = s.subrange(n - i, n);
        let digit = seq![s[n - 1 - i]];
        assert(s.subrange(n - i - 1, n) =~= digit + suffix);
        lemma_digits_value_joined(digit, suffix);
        lemma_single_digit(digit);
        if i + 1 >= s.len() {
            assert(s.subrange(0, n) =~= s);
        }
    } else {
        assert(0 * pow10(i) == 0) by (nonlinear_arith);
    }
}

/// Whether every byte of `s` is a decimal digit.
pub fn only_digits(s: &[u8]) -> (all: bool)
    ensures
        all == all_digits(s@),
{
    let mut i: usize = 0;
    while i < s.len()
        invariant
            i <= s@.len(),
            forall|j: int| 0 <= j < i ==> is_digit(#[trigger] s@[j]),
        decreases s@.len() - i,
    {
        if s[i] < DIGIT_ZERO || s[i] > DIGIT_NINE {
            return false;
        }
        i += 1;
    }
    true
}

/// A string of `n` zeros.
pub fn zero_digits(n: usize) -> (s: Vec<u8>)
    ensures
        s@ == zeros(n as nat),
{
    let mut s: Vec<u8> = Vec::new();
    let mut i: usize = 0;
    while i < n
        invariant
            i <= n,
            s@ == zeros(i as nat),
        decreases n - i,
    {
        s.push(DIGIT_ZERO);
        assert(s@ =~= zeros((i + 1) as nat));
        i += 1;
    }
    s
}

/// The digit at place `i` counted from the right, zero beyond the string.
fn digit_at(s: &[u8], i: usize) -> (d: u8)
    requires
        all_digits(s@),
    ensures
        d == digit_from_right(s@, i as nat),
        d <= 9,
{
    if i < s.len() {
        s[s.len() - 1 - i] - DIGIT_ZERO
    } else {
        0
    }
}

/// The sum of two numbers.
pub fn sum_of(a: &[u8], b: &[u8]) -> (sum: Vec<u8>)
    requires
        all_digits(a@),
        all_digits(b@),
    ensures
        all_digits(sum@),
        digits_value(sum@) == digits_value(a@) + digits_value(b@),
        sum@.len() >= a@.len(),
        sum@.len() >= b@.len(),
{
    let n: usize = if a.len() >= b.len() {
        a.len()
    } else {
        b.len()
    };
    let mut r: Vec<u8> = zero_digits(n);
    let mut carry: u8 = 0;
    let mut i: usize = 0;
    while i < n
        invariant
            i <= n,
            n >= a@.len(),
            n >= b@.len(),
            r@.len() == n,
            all_digits(a@),
            all_digits(b@),
            all_digits(r@),
            carry <= 1,
            low(r@, i as nat) + carry * pow10(i as nat) == low(a@, i as nat) + low(b@, i as nat),
        decreases n - i,
    {
        let da: u8 = digit_at(a, i);
        let db: u8 = digit_at(b, i);
        let total: u8 = da + db + carry;
        let digit: u8 = if total >= 10 {
            total - 10
        } else {
            total
        };
        let next: u8 = if total >= 10 {
            1
        } else {
            0
        };
        let ghost before = r@;
        r.set(n - 1 - i, DIGIT_ZERO + digit);
        proof {
            let p = pow10(i as nat);
            lemma_low_step(a@, i as nat);
            lemma_low_step(b@, i as nat);
            lemma_low_step(r@, i as nat);
            assert(r@.subrange(n - i, n as int) =~= before.subrange(n - i, n as int));
            assert(low(r@, i as nat) == low(before, i as nat));
            assert(digit * p + next * (10 * p) == da * p + db * p + carry * p) by (nonlinear_arith)
                requires
                    digit + 10 * next == da + db + carry,
            ;
        }
        carry = next;
        i += 1;
    }
    if carry == 1 {
        let mut out: Vec<u8> = Vec::new();
        out.push(DIGIT_ZERO + 1);
        let mut k: usize = 0;
        while k < n
            invariant
                k <= n,
                r@.len() == n,
                out@ == seq![(DIGIT_ZERO + 1) as u8] + r@.take(k as int),
            decreases n - k,
        {
            out.push(r[k]);
            assert(out@ =~= seq![(DIGIT_ZERO + 1) as u8] + r@.take(k as int + 1));
            k += 1;
        }
        proof {
            let one = seq![(DIGIT_ZERO + 1) as u8];
            assert(r@.take(n as int) =~= r@);
            lemma_digits_value_joined(one, r@);
            lemma_single_digit(one);
            assert(1 * pow10(n as nat) == pow10(n as nat)) by (nonlinear_arith);
        }
        out
    } else {
        assert(0 * pow10(n as nat) == 0) by (nonlinear_arith);
        r
    }
}

/// The difference of two numbers when the first is not the smaller one,
/// and whether the first is the smaller one.
pub fn subtract(a: &[u8], b: &[u8]) -> (found: (Vec<u8>, bool))
    requires
        all_digits(a@),
        all_digits(b@),
    ensures
        found.1 == (digits_value(a@) < digits_value(b@)),
        all_digits(found.0@),
        !found.1 ==> digits_value(found.0@) == digits_value(a@) - digits_value(b@),
        found.0@.len() >= a@.len(),
        found.0@.len() >= b@.len(),
{
    let n: usize = if a.len() >= b.len() {
        a.len()
    } else {
        b.len()
    };
    let mut r: Vec<u8> = zero_digits(n);
    let mut borrow: u8 = 0;
    let mut i: usize = 0;
    while i < n
        invariant
            i <= n,
            n >= a@.len(),
            n >= b@.len(),
            r@.len() == n,
            all_digits(a@),
            all_digits(b@),
            all_digits(r@),
            borrow <= 1,
            low(r@, i as nat) + low(b@, i as nat) == low(a@, i as nat) + borrow * pow10(i as nat),
        decreases n - i,
    {
        let da: u8 = digit_at(a, i);
        let db: u8 = digit_at(b, i);
        let total: u8 = da + 10 - db - borrow;
        let digit: u8 = if total >= 10 {
            total - 10
        } else {
            total
        };
        let next: u8 = if total >= 10 {
            0
        } else {
            1
        };
        let ghost before = r@;
        r.set(n - 1 - i, DIGIT_ZERO + digit);
        proof {
            let p = pow10(i as nat);
            lemma_low_step(a@, i as nat);
            lemma_low_step(b@, i as nat);
            lemma_low_step(r@, i as nat);
            assert(r@.subrange(n - i, n as int) =~= before.subrange(n - i, n as int));
            assert(low(r@, i as nat) == low(before, i as nat));
            assert(digit * p + db * p + borrow * p == da * p + next * (10 * p)) by (nonlinear_arith)
                requires
                    digit + db + borrow == da + 10 * next,
            ;
        }
        borrow = next;
        i += 1;
    }
    proof {
        lemma_digits_value_bound(r@);
        assert(1 * pow10(n as nat) == pow10(n as nat)) by (nonlinear_arith);
        assert(0 * pow10(n as nat) == 0) by (nonlinear_arith);
    }
    (r, borrow == 1)
}

/// Whether the first number is smaller than the second.
pub fn less(a: &[u8], b: &[u8]) -> (smaller: bool)
    requires
        all_digits(a@),
        all_digits(b@),
    ensures
        smaller == (digits_value(a@) < digits_value(b@)),
{
    let (_, borrowed) = subtract(a, b);
    borrowed
}

/// Quotient and remainder of a number by a machine integer.
pub fn divide(a: &[u8], by: u64) -> (found: (Vec<u8>, u64))
    requires
        all_digits(a@),
        by >= 1,
    ensures
        all_digits(found.0@),
        found.1 < by,
        digits_value(a@) == digits_value(found.0@) * by + found.1,
        found.0@.len() == a@.len(),
{
    let mut q: Vec<u8> = Vec::new();
    let mut rest: u64 = 0;
    let mut i: usize = 0;
    assert(0 * by == 0) by (nonlinear_arith);
    while i < a.len()
        invariant
            i <= a@.len(),
            all_digits(a@),
            all_digits(q@),
            by >= 1,
            rest < by,
            q@.len() == i,
            digits_value(a@.take(i as int)) == digits_value(q@) * by + rest,
        decreases a@.len() - i,
    {
        let d: u8 = a[i] - DIGIT_ZERO;
        let current: u128 = (rest as u128) * 10 + d as u128;
        let digit: u128 = current / (by as u128);
        let left: u128 = current % (by as u128);
        let ghost before = q@;
        proof {
            lemma_digits_value_step(a@, i as int);
            vstd::arithmetic::div_mod::lemma_fundamental_div_mod(current as int, by as int);
            assert(digit < 10) by (nonlinear_arith)
                requires
                    current == by * digit + left,
                    current < 10 * by,
                    left >= 0,
                    by >= 1,
            ;
        }
        q.push(DIGIT_ZERO + digit as u8);
        proof {
            assert(q@.drop_last() =~= before);
            assert((digits_value(before) * 10 + digit) * by + left == (digits_value(before) * by
                + rest) * 10 + d) by (nonlinear_arith)
                requires
                    rest * 10 + d == by * digit + left,
            ;
        }
        rest = left as u64;
        i += 1;
    }
    assert(a@.take(i as int) =~= a@);
    (q, rest)
}

/// A natural number written in decimal digits, without leading zeros.
pub open spec fn decimal_digits(n: nat) -> Seq<u8>
    decreases n,
{
    if n < 10 {
        seq![(DIGIT_ZERO + n) as u8]
    } else {
        decimal_digits(n / 10).push((DIGIT_ZERO + n % 10) as u8)
    }
}

/// A digit string that does not start with a needless zero is the decimal
/// writing of its number.
pub proof fn lemma_decimal_digits_of(s: Seq<u8>)
    requires
        all_digits(s),
        s.len() >= 1,
        s.len() == 1 || s[0] != DIGIT_ZERO,
    ensures
        decimal_digits(digits_value(s)) == s,
    decreases s.len(),
{
    if s.len() == 1 {
        lemma_single_digit(s);
        assert(decimal_digits(digits_value(s)) =~= s);
    } else {
        let front = s.drop_last();
        lemma_decimal_digits_of(front);
        lemma_digits_value_prefix(front, 1);
        lemma_single_digit(front.take(1));
        assert(digits_value(front) >= 1);
        let v = digits_value(s);
        assert(v == digits_value(front) * 10 + (s.last() - DIGIT_ZERO));
        assert(v / 10 == digits_value(front));
        assert(v % 10 == s.last() - DIGIT_ZERO);
        assert(decimal_digits(v) =~= s);
    }
}

/// Appends a number to `out`, written without leading zeros.
pub fn write_number(out: &mut Vec<u8>, digits: &[u8])
    requires
        all_digits(digits@),
    ensures
        final(out)@ == old(out)@ + decimal_digits(digits_value(digits@)),
{
    let mut start: usize = 0;
    while start < digits.len() && digits[start] == DIGIT_ZERO
        invariant
            start <= digits@.len(),
            forall|j: int| 0 <= j < start ==> digits@[j] == DIGIT_ZERO,
        decreases digits@.len() - start,
    {
        start += 1;
    }
    proof {
        let front = digits@.take(start as int);
        let back = digits@.skip(start as int);
        assert(digits@ =~= front + back);
        lemma_zeros_value(front);
        lemma_digits_value_joined(front, back);
        assert(0 * pow10(back.len()) == 0) by (nonlinear_arith);
        if start < digits@.len() {
            lemma_decimal_digits_of(back);
        }
    }
    if start == digits.len() {
        out.push(DIGIT_ZERO);
        assert(out@ =~= old(out)@ + decimal_digits(0));
    } else {
        let mut k: usize = start;
        while k < digits.len()
            invariant
                start <= k <= digits@.len(),
                out@ == old(out)@ + digits@.subrange(start as int, k as int),
            decreases digits@.len() - k,
        {
            out.push(digits[k]);
            assert(out@ =~= old(out)@ + digits@.subrange(start as int, k as int + 1));
            k += 1;
        }
        assert(digits@.subrange(start as int, k as int) =~= digits@.skip(start as int));
    }
}

} // verus!
