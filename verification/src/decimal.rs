//! Decimal numerals as character sequences: their value, their canonical
//! and zero-padded forms, and reading one from text.

use crate::text::{push_chars, to_chars};
use vstd::prelude::*;

verus! {

/// True for the ten ASCII digits.
#[verifier::allow_in_spec]
pub fn is_digit(c: char) -> bool
    returns
        '0' <= c && c <= '9',
{
    '0' <= c && c <= '9'
}

/// The number a digit stands for.
pub open spec fn digit_value(c: char) -> nat {
    (c as int - '0' as int) as nat
}

/// The digit that stands for `d`, for `d` below ten.
pub open spec fn digit_char(d: nat) -> char {
    (d + '0' as nat) as char
}

/// Every character of `s` is a digit.
pub open spec fn all_digits(s: Seq<char>) -> bool {
    forall|i: int| 0 <= i < s.len() ==> is_digit(#[trigger] s[i])
}

/// The value of a string of digits read in base ten; zero for the empty string.
pub open spec fn decimal_value(s: Seq<char>) -> nat
    decreases s.len(),
{
    if s.len() == 0 {
        0
    } else {
        decimal_value(s.drop_last()) * 10 + digit_value(s.last())
    }
}

/// The shortest decimal numeral of `n`.
pub open spec fn decimal_digits(n: nat) -> Seq<char>
    decreases n,
{
    if n < 10 {
        seq![digit_char(n)]
    } else {
        decimal_digits(n / 10).push(digit_char(n % 10))
    }
}

/// A string of `k` zeros.
pub open spec fn zeros(k: nat) -> Seq<char> {
    Seq::new(k, |i: int| '0')
}

/// The decimal numeral of `n`, with zeros in front until it is `width` long.
pub open spec fn padded_decimal(n: nat, width: nat) -> Seq<char> {
    let digits = decimal_digits(n);
    if digits.len() >= width {
        digits
    } else {
        zeros((width - digits.len()) as nat) + digits
    }
}

/// The value of one or more digits, if it fits in 32 bits.
pub open spec fn parsed_digits(digits: Seq<char>) -> Option<u32> {
    if digits.len() > 0 && all_digits(digits) && decimal_value(digits) <= u32::MAX {
        Some(decimal_value(digits) as u32)
    } else {
        None
    }
}

/// What reading an unsigned 32-bit number from `s` yields: an optional plus
/// sign, then one or more digits whose value fits in 32 bits.
pub open spec fn parsed_u32(s: Seq<char>) -> Option<u32> {
    if s.len() > 0 && s[0] == '+' {
        parsed_digits(s.skip(1))
    } else {
        parsed_digits(s)
    }
}

/// A digit string is worth at least as much as any of its prefixes.
pub proof fn lemma_decimal_value_prefix(s: Seq<char>, k: int)
    requires
        0 <= k <= s.len(),
    ensures
        decimal_value(s.take(k)) <= decimal_value(s),
    decreases s.len(),
{
    if k == s.len() {
        assert(s.take(k) =~= s);
    } else {
        lemma_decimal_value_prefix(s.drop_last(), k);
        assert(s.drop_last().take(k) =~= s.take(k));
    }
}

/// The canonical numeral is made of digits and is never empty.
pub proof fn lemma_decimal_digits_shape(n: nat)
    ensures
        decimal_digits(n).len() >= 1,
        all_digits(decimal_digits(n)),
        n < 10 ==> decimal_digits(n).len() == 1,
        10 <= n < 100 ==> decimal_digits(n).len() == 2,
        100 <= n < 1000 ==> decimal_digits(n).len() == 3,
        1000 <= n ==> decimal_digits(n).len() >= 4,
    decreases n,
{
    if n >= 10 {
        lemma_decimal_digits_shape(n / 10);
    }
}

/// Reading the canonical numeral of `n` gives `n` back.
pub proof fn lemma_decimal_value_of_digits(n: nat)
    ensures
        decimal_value(decimal_digits(n)) == n,
    decreases n,
{
    if n < 10 {
        assert(decimal_digits(n).drop_last() =~= Seq::<char>::empty());
        assert(decimal_value(Seq::<char>::empty()) == 0);
    } else {
        lemma_decimal_value_of_digits(n / 10);
        assert(decimal_digits(n).drop_last() =~= decimal_digits(n / 10));
    }
}

/// Reading the canonical numeral of a 32-bit number as a 32-bit number
/// succeeds with that number.
pub proof fn lemma_parsed_decimal_digits(n: u32)
    ensures
        parsed_u32(decimal_digits(n as nat)) == Some(n),
{
    lemma_decimal_digits_shape(n as nat);
    lemma_decimal_value_of_digits(n as nat);
    assert(is_digit(decimal_digits(n as nat)[0]));
}

/// Zeros in front of a digit string do not change its value.
pub proof fn lemma_leading_zeros(k: nat, digits: Seq<char>)
    ensures
        decimal_value(zeros(k) + digits) == decimal_value(digits),
    decreases digits.len(), k,
{
    let whole = zeros(k) + digits;
    if digits.len() > 0 {
        lemma_leading_zeros(k, digits.drop_last());
        assert(whole.drop_last() =~= zeros(k) + digits.drop_last());
    } else if k > 0 {
        lemma_leading_zeros((k - 1) as nat, digits);
        assert(whole.drop_last() =~= zeros((k - 1) as nat) + digits);
    } else {
        assert(whole =~= digits);
    }
}

/// The padded numeral of `n` is at least `width` long, is made of digits, and
/// reads as `n`.
pub proof fn lemma_padded_decimal(n: nat, width: nat)
    ensures
        padded_decimal(n, width).len() >= width,
        padded_decimal(n, width).len() >= 1,
        padded_decimal(n, width).len() == width || padded_decimal(n, width) == decimal_digits(n),
        all_digits(padded_decimal(n, width)),
        decimal_value(padded_decimal(n, width)) == n,
        n <= u32::MAX ==> parsed_u32(padded_decimal(n, width)) == Some(n as u32),
{
    let digits = decimal_digits(n);
    lemma_decimal_digits_shape(n);
    lemma_decimal_value_of_digits(n);
    if digits.len() < width {
        let k = (width - digits.len()) as nat;
        lemma_leading_zeros(k, digits);
        assert(padded_decimal(n, width) == zeros(k) + digits);
    }
    assert(is_digit(padded_decimal(n, width)[0]));
}

/// Two digits read as a number below one hundred, three digits as one below
/// one thousand.
pub proof fn lemma_short_numeral(digits: Seq<char>)
    requires
        all_digits(digits),
        1 <= digits.len() <= 3,
    ensures
        digits.len() <= 2 ==> decimal_value(digits) <= 99,
        decimal_value(digits) <= 999,
        parsed_u32(digits) == Some(decimal_value(digits) as u32),
{
    reveal_with_fuel(decimal_value, 4);
    assert(is_digit(digits[0]));
    if digits.len() >= 2 {
        assert(is_digit(digits[1]));
        assert(digits.drop_last()[0] == digits[0]);
    }
    if digits.len() == 3 {
        assert(is_digit(digits[2]));
        assert(digits.drop_last()[1] == digits[1]);
        assert(digits.drop_last().drop_last()[0] == digits[0]);
    }
}

/// Reads an unsigned 32-bit number the way `str::parse::<u32>` does.
pub fn parse_u32(text: &str) -> (value: Option<u32>)
    ensures
        value == parsed_u32(text@),
{
    let chars = to_chars(text);
    let n = chars.len();
    let start: usize = if n > 0 && chars[0] == '+' {
        1
    } else {
        0
    };
    let ghost digits = chars@.skip(start as int);
    assert(chars@.skip(0) =~= chars@);
    if start == n {
        return None;
    }
    let mut value: u32 = 0;
    let mut i: usize = start;
    while i < n
        invariant
            start <= i <= n,
            n == chars@.len(),
            digits == chars@.skip(start as int),
            parsed_u32(text@) == parsed_digits(digits),
            all_digits(digits.take(i - start)),
            value == decimal_value(digits.take(i - start)),
            value <= u32::MAX,
        decreases n - i,
    {
        let c = chars[i];
        let ghost seen = digits.take(i - start + 1);
        proof {
            assert(seen.drop_last() =~= digits.take(i - start));
            assert(seen.last() == c);
        }
        if !is_digit(c) {
            assert(!is_digit(digits[i - start]));
            return None;
        }
        let d: u32 = c as u32 - '0' as u32;
        if value > (u32::MAX - d) / 10 {
            proof {
                lemma_decimal_value_prefix(digits, i - start + 1);
            }
            return None;
        }
        value = value * 10 + d;
        i += 1;
    }
    proof {
        assert(digits.take(n - start) =~= digits);
    }
    Some(value)
}

/// The canonical numeral of `n`.
pub fn decimal_chars(n: u32) -> (digits: Vec<char>)
    ensures
        digits@ == decimal_digits(n as nat),
    decreases n,
{
    if n < 10 {
        let mut digits: Vec<char> = Vec::new();
        digits.push((48u8 + n as u8) as char);
        assert(digits@ =~= decimal_digits(n as nat));
        digits
    } else {
        let mut digits = decimal_chars(n / 10);
        digits.push((48u8 + (n % 10) as u8) as char);
        digits
    }
}

/// Appends `n` in decimal to `out`, padded with zeros to at least `width`
/// characters.
pub fn push_padded(out: &mut String, n: u32, width: usize)
    ensures
        final(out)@ == old(out)@ + padded_decimal(n as nat, width as nat),
{
    let digits = decimal_chars(n);
    let len = digits.len();
    let mut k: usize = len;
    while k < width
        invariant
            len <= k,
            k <= width || k == len,
            out@ == old(out)@ + zeros((k - len) as nat),
        decreases width - k,
    {
        out.push('0');
        k += 1;
        assert(out@ =~= old(out)@ + zeros((k - len) as nat));
    }
    let ghost before = out@;
    push_chars(out, digits.as_slice(), 0, len);
    proof {
        assert(digits@.subrange(0, len as int) =~= digits@);
        assert(before + digits@ =~= old(out)@ + padded_decimal(n as nat, width as nat));
    }
}

} // verus!
