//! Text: strings built character by character, numbers and bytes written
//! out for people, and bytes read as UTF-8.

use vstd::prelude::*;
use vstd::slice::slice_to_vec;
use vstd::string::{is_ascii, is_ascii_spec_bytes};
use vstd::utf8::{decode_utf8, valid_utf8};

use crate::decimal::{decimal, lemma_decimal_shape, push_decimal};

verus! {

/// `String::push` appends one character to the string and changes nothing
/// else of it.
pub assume_specification[ std::string::String::push ](s: &mut std::string::String, ch: char)
    ensures
        final(s)@ == old(s)@.push(ch),
;

/// The text that `String::from_utf8_lossy` makes of `bytes`: the text that
/// the bytes encode where they are valid UTF-8, and else that text with a
/// replacement character for each invalid part.
pub uninterp spec fn utf8_lossy(bytes: Seq<u8>) -> Seq<char>;

/// Calls `String::from_utf8_lossy` and takes the result as an owned string.
/// Believed: the result is `utf8_lossy` of the bytes, which for valid UTF-8
/// is the text they encode.
#[verifier::external_body]
pub(crate) fn lossy_text(bytes: &[u8]) -> (s: String)
    ensures
        s@ == utf8_lossy(bytes@),
        valid_utf8(bytes@) ==> s@ == decode_utf8(bytes@),
{
    String::from_utf8_lossy(bytes).into_owned()
}

/// Calls `String::from_utf8`. Believed: it succeeds exactly on valid UTF-8,
/// and the string is then the text that the bytes encode.
#[verifier::external_body]
pub(crate) fn utf8_text(bytes: Vec<u8>) -> (r: Option<String>)
    ensures
        r is Some <==> valid_utf8(bytes@),
        r matches Some(s) ==> s@ == decode_utf8(bytes@),
{
    String::from_utf8(bytes).ok()
}

/// The bytes of a sequence of ASCII characters.
pub open spec fn ascii_bytes(chars: Seq<char>) -> Seq<u8> {
    Seq::new(chars.len(), |i: int| chars[i] as u8)
}

/// The bytes of an ASCII string, one for each character.
pub(crate) fn bytes_of_ascii(s: &str) -> (bytes: Vec<u8>)
    requires
        is_ascii(s),
    ensures
        bytes@ == ascii_bytes(s@),
{
    proof {
        is_ascii_spec_bytes(s);
    }
    slice_to_vec(s.as_bytes())
}

/// The characters of a sequence of ASCII bytes.
pub open spec fn ascii_text(bytes: Seq<u8>) -> Seq<char> {
    Seq::new(bytes.len(), |i: int| bytes[i] as char)
}

/// The decimal numeral of `n` as text.
pub open spec fn decimal_text(n: nat) -> Seq<char> {
    ascii_text(decimal(n))
}

/// The decimal numeral of a signed integer as text.
pub open spec fn signed_decimal_text(i: int) -> Seq<char> {
    if i < 0 {
        seq!['-'] + decimal_text((-i) as nat)
    } else {
        decimal_text(i as nat)
    }
}

/// The lower-case hexadecimal digit for `n`: `0` to `9`, whose codes start
/// at 48, then `a` to `f`, whose codes start at 97.
pub open spec fn hex_digit(n: int) -> char
    recommends
        0 <= n < 16,
{
    if n < 10 {
        (48 + n) as char
    } else {
        (87 + n) as char
    }
}

/// The two lower-case hexadecimal digits of each byte, in order.
pub open spec fn hex_text(bytes: Seq<u8>) -> Seq<char> {
    Seq::new(
        2 * bytes.len(),
        |i: int|
            if i % 2 == 0 {
                hex_digit(bytes[i / 2] as int / 16)
            } else {
                hex_digit(bytes[i / 2] as int % 16)
            },
    )
}

/// Appends the ASCII bytes `bytes` to `s` as characters.
pub(crate) fn push_ascii(s: &mut String, bytes: &[u8])
    requires
        forall|i: int| 0 <= i < bytes@.len() ==> bytes@[i] < 128,
    ensures
        final(s)@ == old(s)@ + ascii_text(bytes@),
{
    let mut i: usize = 0;
    while i < bytes.len()
        invariant
            i <= bytes.len(),
            forall|j: int| 0 <= j < bytes@.len() ==> bytes@[j] < 128,
            s@ == old(s)@ + ascii_text(bytes@.take(i as int)),
        decreases bytes.len() - i,
    {
        s.push(bytes[i] as char);
        i += 1;
    }
}

/// Appends the decimal numeral of `n` to `s`.
pub fn push_decimal_text(s: &mut String, n: u64)
    ensures
        final(s)@ == old(s)@ + decimal_text(n as nat),
{
    let mut digits: Vec<u8> = Vec::new();
    push_decimal(&mut digits, n);
    proof {
        lemma_decimal_shape(n as nat);
    }
    push_ascii(s, digits.as_slice());
}

/// Appends the decimal numeral of the signed integer `i` to `s`.
pub fn push_signed_decimal_text(s: &mut String, i: i64)
    ensures
        final(s)@ == old(s)@ + signed_decimal_text(i as int),
{
    if i < 0 {
        s.push('-');
        let magnitude: u64 = if i == i64::MIN {
            9223372036854775808u64
        } else {
            (-i) as u64
        };
        push_decimal_text(s, magnitude);
    } else {
        push_decimal_text(s, i as u64);
    }
}

/// The lower-case hexadecimal digit for `n`.
pub(crate) fn hex_digit_of(n: u8) -> (c: char)
    requires
        n < 16,
    ensures
        c == hex_digit(n as int),
{
    if n < 10 {
        (48u8 + n) as char
    } else {
        (87u8 + n) as char
    }
}

} // verus!
