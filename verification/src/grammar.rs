//! What decoding means: the bencode grammar as a function from bytes to a
//! value or a located error.

use vstd::prelude::*;

use crate::ascii::{COLON, DICT, END, INTEGER, LIST, MINUS, ZERO};
use crate::bencode::Bencode;
use crate::decimal::{digits_value, is_digit};
use crate::lex::lex_less;

verus! {

/// Why a byte sequence is not a bencoded value.
#[derive(Debug, PartialEq, Eq, Clone, Copy)]
pub enum DecodeErrorKind {
    /// The input ends before the value does.
    Truncated,
    /// A byte-string's length is missing, or holds a byte that is neither a
    /// digit nor the colon that ends it.
    InvalidLength,
    /// The input ends inside a byte-string's length, before its colon.
    MissingColon,
    /// An integer has no digits, a leading zero, a negative zero, or a byte
    /// that does not belong in a number.
    InvalidInteger,
    /// An integer does not fit in 64 bits.
    Overflow,
    /// The byte at which a value should start begins no value.
    UnknownPrefix,
    /// A dictionary key is not greater than the key before it.
    MisorderedKeys,
}

/// A decode error: what is wrong, and at which byte of the input.
#[derive(Debug, PartialEq, Eq, Clone, Copy)]
pub struct DecodeError {
    pub kind: DecodeErrorKind,
    pub offset: usize,
}

/// The error of kind `kind` at byte `offset`.
pub open spec fn error_at(kind: DecodeErrorKind, offset: int) -> DecodeError {
    DecodeError { kind, offset: offset as usize }
}

/// The position of the first byte at or after `from` that is not a digit, or
/// the input's length if only digits follow.
pub open spec fn digits_end(input: Seq<u8>, from: int) -> int
    decreases input.len() - from,
{
    if 0 <= from < input.len() && is_digit(input[from]) {
        digits_end(input, from + 1)
    } else {
        from
    }
}

/// A run of digits ends at or after its start, within the input.
pub proof fn lemma_digits_end_bounds(input: Seq<u8>, from: int)
    requires
        0 <= from <= input.len(),
    ensures
        from <= digits_end(input, from) <= input.len(),
        forall|i: int| from <= i < digits_end(input, from) ==> is_digit(#[trigger] input[i]),
        digits_end(input, from) < input.len() ==> !is_digit(input[digits_end(input, from)]),
    decreases input.len() - from,
{
    if from < input.len() && is_digit(input[from]) {
        lemma_digits_end_bounds(input, from + 1);
    }
}

/// A byte-string at `pos`: decimal digits up to a colon give the length `n`,
/// and the next `n` bytes, whatever they are, are the string. Yields the
/// string and the position after it.
pub open spec fn parse_string(input: Seq<u8>, pos: int) -> Result<(Seq<u8>, int), DecodeError> {
    let colon = digits_end(input, pos);
    let n = digits_value(input.subrange(pos, colon));
    if pos < 0 || pos >= input.len() {
        Err(error_at(DecodeErrorKind::Truncated, pos))
    } else if colon == pos {
        Err(error_at(DecodeErrorKind::InvalidLength, pos))
    } else if colon >= input.len() {
        Err(error_at(DecodeErrorKind::MissingColon, colon))
    } else if input[colon] != COLON {
        Err(error_at(DecodeErrorKind::InvalidLength, colon))
    } else if n > input.len() - (colon + 1) {
        Err(error_at(DecodeErrorKind::Truncated, input.len() as int))
    } else {
        Ok((input.subrange(colon + 1, colon + 1 + n), colon + 1 + n))
    }
}

/// An integer at `pos`: `i`, an optional minus sign, decimal digits, `e`.
/// Leading zeros and `-0` are refused, and the number must fit in 64 bits.
/// Yields the number and the position after the `e`.
pub open spec fn parse_integer(input: Seq<u8>, pos: int) -> Result<(i64, int), DecodeError> {
    let negative = pos + 1 < input.len() && input[pos + 1] == MINUS;
    let start = if negative {
        pos + 2
    } else {
        pos + 1
    };
    let end = digits_end(input, start);
    let magnitude = digits_value(input.subrange(start, end));
    let number = if negative {
        -magnitude
    } else {
        magnitude as int
    };
    if pos < 0 || pos >= input.len() {
        Err(error_at(DecodeErrorKind::Truncated, pos))
    } else if input[pos] != INTEGER {
        Err(error_at(DecodeErrorKind::InvalidInteger, pos))
    } else if end >= input.len() {
        Err(error_at(DecodeErrorKind::Truncated, input.len() as int))
    } else if end == start || input[end] != END {
        Err(error_at(DecodeErrorKind::InvalidInteger, end))
    } else if input[start] == ZERO && (negative || end - start > 1) {
        Err(error_at(DecodeErrorKind::InvalidInteger, start))
    } else if number < i64::MIN || number > i64::MAX {
        Err(error_at(DecodeErrorKind::Overflow, pos))
    } else {
        Ok((number as i64, end + 1))
    }
}

/// A byte-string at `pos`, as a value.
pub open spec fn parse_string_value(input: Seq<u8>, pos: int) -> Result<(Bencode, int), DecodeError> {
    match parse_string(input, pos) {
        Ok((bytes, end)) => Ok((Bencode::Bytes(bytes), end)),
        Err(e) => Err(e),
    }
}

/// An integer at `pos`, as a value.
pub open spec fn parse_integer_value(input: Seq<u8>, pos: int) -> Result<
    (Bencode, int),
    DecodeError,
> {
    match parse_integer(input, pos) {
        Ok((number, end)) => Ok((Bencode::Int(number), end)),
        Err(e) => Err(e),
    }
}

/// A value at `pos`, told by its first byte: a digit starts a byte-string,
/// `i` an integer, `l` a list, `d` a dictionary. Yields the value and the
/// position after it.
pub open spec fn parse_value(input: Seq<u8>, pos: int) -> Result<(Bencode, int), DecodeError>
    decreases input.len() - pos, 1int,
{
    if pos < 0 || pos >= input.len() {
        Err(error_at(DecodeErrorKind::Truncated, pos))
    } else if is_digit(input[pos]) {
        parse_string_value(input, pos)
    } else if input[pos] == INTEGER {
        parse_integer_value(input, pos)
    } else if input[pos] == LIST {
        parse_list(input, pos)
    } else if input[pos] == DICT {
        parse_dict(input, pos)
    } else {
        Err(error_at(DecodeErrorKind::UnknownPrefix, pos))
    }
}

/// A list at `pos`: `l`, the items, `e`.
pub open spec fn parse_list(input: Seq<u8>, pos: int) -> Result<(Bencode, int), DecodeError>
    decreases input.len() - pos, 0int,
{
    if pos < 0 || pos >= input.len() {
        Err(error_at(DecodeErrorKind::Truncated, pos))
    } else if input[pos] != LIST {
        Err(error_at(DecodeErrorKind::UnknownPrefix, pos))
    } else {
        match parse_items(input, pos + 1) {
            Ok((items, end)) => Ok((Bencode::List(items), end)),
            Err(e) => Err(e),
        }
    }
}

/// A dictionary at `pos`: `d`, the entries with their keys in strictly
/// ascending order, `e`.
pub open spec fn parse_dict(input: Seq<u8>, pos: int) -> Result<(Bencode, int), DecodeError>
    decreases input.len() - pos, 0int,
{
    if pos < 0 || pos >= input.len() {
        Err(error_at(DecodeErrorKind::Truncated, pos))
    } else if input[pos] != DICT {
        Err(error_at(DecodeErrorKind::UnknownPrefix, pos))
    } else {
        match parse_entries(input, pos + 1, None) {
            Ok((entries, end)) => Ok((Bencode::Dict(entries), end)),
            Err(e) => Err(e),
        }
    }
}

/// The items of a list from `pos` on: values up to an `e`. Yields the items
/// and the position after the `e`.
pub open spec fn parse_items(input: Seq<u8>, pos: int) -> Result<(Seq<Bencode>, int), DecodeError>
    decreases input.len() - pos, 2int,
{
    if pos < 0 || pos >= input.len() {
        Err(error_at(DecodeErrorKind::Truncated, input.len() as int))
    } else if input[pos] == END {
        Ok((Seq::empty(), pos + 1))
    } else {
        match parse_value(input, pos) {
            Err(e) => Err(e),
            Ok((item, next)) => if pos < next <= input.len() {
                match parse_items(input, next) {
                    Ok((rest, end)) => Ok((seq![item] + rest, end)),
                    Err(e) => Err(e),
                }
            } else {
                // A value is never empty and ends within the input, so this
                // never happens.
                Err(error_at(DecodeErrorKind::Truncated, pos))
            },
        }
    }
}

/// The entries of a dictionary from `pos` on: a byte-string key and a value,
/// again and again, up to an `e`. Each key must be greater than `previous`,
/// the key before it. Yields the entries and the position after the `e`.
pub open spec fn parse_entries(input: Seq<u8>, pos: int, previous: Option<Seq<u8>>) -> Result<
    (Seq<(Seq<u8>, Bencode)>, int),
    DecodeError,
>
    decreases input.len() - pos, 2int,
{
    if pos < 0 || pos >= input.len() {
        Err(error_at(DecodeErrorKind::Truncated, input.len() as int))
    } else if input[pos] == END {
        Ok((Seq::empty(), pos + 1))
    } else {
        match parse_string(input, pos) {
            Err(e) => Err(e),
            Ok((key, key_end)) => if previous is Some && !lex_less(previous->0, key) {
                Err(error_at(DecodeErrorKind::MisorderedKeys, pos))
            } else if pos < key_end <= input.len() {
                match parse_value(input, key_end) {
                    Err(e) => Err(e),
                    Ok((value, next)) => if key_end < next <= input.len() {
                        match parse_entries(input, next, Some(key)) {
                            Ok((rest, end)) => Ok((seq![(key, value)] + rest, end)),
                            Err(e) => Err(e),
                        }
                    } else {
                        // A value is never empty and ends within the input,
                        // so this never happens.
                        Err(error_at(DecodeErrorKind::Truncated, pos))
                    },
                }
            } else {
                // A key takes at least its colon and ends within the input,
                // so this never happens.
                Err(error_at(DecodeErrorKind::Truncated, pos))
            },
        }
    }
}

} // verus!
