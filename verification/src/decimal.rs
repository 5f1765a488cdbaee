//! ASCII decimal numerals, as bencode and query strings write integers.

use vstd::prelude::*;

use crate::ascii::{MINUS, NINE, ZERO};

verus! {

/// The ASCII code of the decimal digit `d`.
pub open spec fn digit_byte(d: int) -> u8
    recommends
        0 <= d < 10,
{
    (ZERO + d) as u8
}

/// Whether `b` is one of the ASCII digits `'0'..='9'`.
pub open spec fn is_digit(b: u8) -> bool {
    ZERO <= b <= NINE
}

/// The shortest decimal numeral of `n`: no leading zero, except for `0` itself.
pub open spec fn decimal(n: nat) -> Seq<u8>
    decreases n,
{
    if n < 10 {
        seq![digit_byte(n as int)]
    } else {
        decimal(n / 10).push(digit_byte((n % 10) as int))
    }
}

/// The decimal numeral of a signed integer: a minus sign, if negative, then
/// the numeral of the magnitude.
pub open spec fn signed_decimal(i: int) -> Seq<u8> {
    if i < 0 {
        seq![MINUS] + decimal((-i) as nat)
    } else {
        decimal(i as nat)
    }
}

/// Whether every byte of `s` is an ASCII digit.
pub open spec fn all_digits(s: Seq<u8>) -> bool {
    forall|i: int| 0 <= i < s.len() ==> is_digit(#[trigger] s[i])
}

/// The number that a string of ASCII digits denotes; leading zeros count for
/// nothing and the empty string denotes zero.
pub open spec fn digits_value(s: Seq<u8>) -> nat
    decreases s.len(),
{
    if s.len() == 0 {
        0
    } else {
        (digits_value(s.drop_last()) * 10 + (s.last() - ZERO)) as nat
    }
}

/// A numeral is made of digits, is never empty, and starts with `0` only if
/// it is `0`.
pub proof fn lemma_decimal_shape(n: nat)
    ensures
        decimal(n).len() >= 1,
        all_digits(decimal(n)),
        decimal(n)[0] == ZERO <==> n == 0,
    decreases n,
{
    if n >= 10 {
        lemma_decimal_shape(n / 10);
    }
}

/// Reading a numeral back gives the number it was written from.
pub proof fn lemma_decimal_value(n: nat)
    ensures
        digits_value(decimal(n)) == n,
    decreases n,
{
    if n < 10 {
        let s = decimal(n);
        assert(digits_value(s.drop_last()) == 0);
    } else {
        lemma_decimal_value(n / 10);
        let s = decimal(n);
        assert(s.drop_last() =~= decimal(n / 10));
    }
}

/// A digit string without a leading zero is the numeral of its own value.
pub proof fn lemma_value_decimal(s: Seq<u8>)
    requires
        s.len() >= 1,
        all_digits(s),
        s.len() > 1 ==> s[0] != ZERO,
    ensures
        decimal(digits_value(s)) == s,
    decreases s.len(),
{
    if s.len() == 1 {
        assert(digits_value(s.drop_last()) == 0);
    } else {
        let head = s.drop_last();
        lemma_value_positive(head);
        lemma_value_decimal(head);
    }
}

/// A digit string that does not start with `0` denotes a positive number.
pub proof fn lemma_value_positive(s: Seq<u8>)
    requires
        s.len() >= 1,
        all_digits(s),
        s[0] != ZERO,
    ensures
        digits_value(s) >= 1,
    decreases s.len(),
{
    if s.len() > 1 {
        lemma_value_positive(s.drop_last());
    }
}

/// A zero in front of a digit string does not change the number it denotes.
pub proof fn lemma_value_leading_zero(s: Seq<u8>)
    ensures
        digits_value(seq![ZERO] + s) == digits_value(s),
    decreases s.len(),
{
    let longer = seq![ZERO] + s;
    if s.len() == 0 {
        assert(longer.drop_last() =~= s);
    } else {
        assert(longer.drop_last() =~= seq![ZERO] + s.drop_last());
        lemma_value_leading_zero(s.drop_last());
    }
}

/// The numeral of the number that a digit string denotes is no longer than
/// the string, and as long only if it is the string: only leading zeros
/// make a digit string differ from the numeral of its value.
pub proof fn lemma_numeral_shortest(s: Seq<u8>)
    requires
        s.len() >= 1,
        all_digits(s),
    ensures
        decimal(digits_value(s)).len() <= s.len(),
        decimal(digits_value(s)).len() == s.len() ==> decimal(digits_value(s)) == s,
    decreases s.len(),
{
    if s.len() == 1 || s[0] != ZERO {
        lemma_value_decimal(s);
    } else {
        let rest = s.skip(1);
        assert(s =~= seq![ZERO] + rest);
        lemma_value_leading_zero(rest);
        lemma_numeral_shortest(rest);
    }
}

/// Appends the decimal numeral of `n` to `out`.
pub fn push_decimal(out: &mut Vec<u8>, n: u64)
    ensures
        final(out)@ == old(out)@ + decimal(n as nat),
    decreases n,
{
    if n >= 10 {
        push_decimal(out, n / 10);
    }
    let d: u8 = (n % 10) as u8;
    out.push(ZERO + d);
}

/// Appends the decimal numeral of the signed integer `i` to `out`.
pub fn push_signed_decimal(out: &mut Vec<u8>, i: i64)
    ensures
        final(out)@ == old(out)@ + signed_decimal(i as int),
{
    if i < 0 {
        out.push(MINUS);
        let magnitude: u64 = if i == i64::MIN {
            9223372036854775808u64
        } else {
            (-i) as u64
        };
        push_decimal(out, magnitude);
    } else {
        push_decimal(out, i as u64);
    }
}

} // verus!
