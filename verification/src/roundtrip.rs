//! Laws that tie decoding to encoding: what was encoded decodes to itself,
//! and what decodes is canonical.

use vstd::prelude::*;

use crate::ascii::{COLON, DICT, END, INTEGER, LIST, MINUS};
use crate::bencode::{encode, encode_bytes, encode_entries, encode_items, entry_keys, Bencode};
use crate::decimal::{
    all_digits, decimal, is_digit, lemma_decimal_shape, lemma_decimal_value,
    lemma_numeral_shortest, lemma_value_decimal, lemma_value_positive,
};
use crate::grammar::{
    digits_end, lemma_digits_end_bounds, parse_entries, parse_integer, parse_items, parse_string,
    parse_value, DecodeError,
};
use crate::lex::{lemma_lex_transitive, lex_less, strictly_ascending};

verus! {

/// Whether `input` holds exactly the bytes `part` from position `pos` on.
pub open spec fn holds_at(input: Seq<u8>, pos: int, part: Seq<u8>) -> bool {
    &&& 0 <= pos
    &&& pos + part.len() <= input.len()
    &&& input.subrange(pos, pos + part.len()) == part
}

/// Where two parts stand one after the other, each stands in its place.
pub proof fn lemma_holds_at_split(input: Seq<u8>, pos: int, first: Seq<u8>, second: Seq<u8>)
    requires
        holds_at(input, pos, first + second),
    ensures
        holds_at(input, pos, first),
        holds_at(input, pos + first.len(), second),
{
    let whole = first + second;
    let window = input.subrange(pos, pos + whole.len());
    assert(input.subrange(pos, pos + first.len()) =~= window.subrange(0, first.len() as int));
    assert(window.subrange(0, first.len() as int) =~= first);
    assert(input.subrange(pos + first.len(), pos + first.len() + second.len())
        =~= window.subrange(first.len() as int, whole.len() as int));
    assert(window.subrange(first.len() as int, whole.len() as int) =~= second);
}

/// A run of digits that something else follows ends where that begins.
pub proof fn lemma_digits_end_run(input: Seq<u8>, from: int, to: int)
    requires
        0 <= from <= to <= input.len(),
        forall|i: int| from <= i < to ==> is_digit(#[trigger] input[i]),
        to < input.len() ==> !is_digit(input[to]),
    ensures
        digits_end(input, from) == to,
    decreases to - from,
{
    if from < to {
        assert(is_digit(input[from]));
        lemma_digits_end_run(input, from + 1, to);
    }
}

/// Every encoding has at least two bytes and starts with a digit, `i`, `l`
/// or `d`: never with the `e` that ends a list.
pub proof fn lemma_encode_first_byte(v: Bencode)
    ensures
        encode(v).len() >= 2,
        is_digit(encode(v)[0]) || encode(v)[0] == INTEGER || encode(v)[0] == LIST || encode(v)[0]
            == DICT,
        v is Bytes <==> is_digit(encode(v)[0]),
        v is Int <==> encode(v)[0] == INTEGER,
        v is List <==> encode(v)[0] == LIST,
        v is Dict <==> encode(v)[0] == DICT,
{
    match v {
        Bencode::Bytes(b) => {
            lemma_decimal_shape(b.len());
            assert(encode(v)[0] == decimal(b.len())[0]);
        },
        Bencode::Int(i) => {},
        Bencode::List(items) => {},
        Bencode::Dict(entries) => {},
    }
}

/// Binary safety: a byte-string written as its length, a colon and its
/// bytes is read back byte for byte, whatever the bytes are and whatever
/// follows them.
pub proof fn lemma_parse_string_encoded(input: Seq<u8>, pos: int, bytes: Seq<u8>)
    requires
        holds_at(input, pos, encode_bytes(bytes)),
    ensures
        parse_string(input, pos) == Ok::<_, DecodeError>(
            (bytes, pos + encode_bytes(bytes).len()),
        ),
{
    let numeral = decimal(bytes.len());
    let k = numeral.len() as int;
    let enc = encode_bytes(bytes);
    lemma_decimal_shape(bytes.len());
    lemma_decimal_value(bytes.len());
    assert(enc.len() == k + 1 + bytes.len());
    assert forall|i: int| pos <= i < pos + enc.len() implies input[i] == enc[i - pos] by {
        assert(input.subrange(pos, pos + enc.len())[i - pos] == input[i]);
    }
    assert forall|i: int| pos <= i < pos + k implies is_digit(#[trigger] input[i]) by {
        assert(enc[i - pos] == numeral[i - pos]);
    }
    assert(input[pos + k] == enc[k]);
    assert(enc[k] == COLON);
    lemma_digits_end_run(input, pos, pos + k);
    assert(input.subrange(pos, pos + k) =~= numeral);
    assert(input.subrange(pos + k + 1, pos + k + 1 + bytes.len()) =~= bytes) by {
        assert forall|j: int| 0 <= j < bytes.len() implies input[pos + k + 1 + j] == bytes[j] by {
            assert(enc[k + 1 + j] == bytes[j]);
        }
    }
}

/// A 64-bit integer written as `i`, its decimal numeral and `e` is read back
/// as that integer, whatever follows.
pub proof fn lemma_parse_integer_encoded(input: Seq<u8>, pos: int, number: i64)
    requires
        holds_at(input, pos, encode(Bencode::Int(number))),
    ensures
        parse_integer(input, pos) == Ok::<_, DecodeError>(
            (number, pos + encode(Bencode::Int(number)).len()),
        ),
{
    let enc = encode(Bencode::Int(number));
    let magnitude: nat = if number < 0 {
        (-number) as nat
    } else {
        number as nat
    };
    let numeral = decimal(magnitude);
    let k = numeral.len() as int;
    lemma_decimal_shape(magnitude);
    lemma_decimal_value(magnitude);
    assert forall|i: int| pos <= i < pos + enc.len() implies input[i] == enc[i - pos] by {
        assert(input.subrange(pos, pos + enc.len())[i - pos] == input[i]);
    }
    let start = if number < 0 {
        pos + 2
    } else {
        pos + 1
    };
    assert(enc.len() == start - pos + k + 1);
    assert(input[pos] == enc[0]);
    assert(input[pos + 1] == enc[1]);
    if number < 0 {
        assert(enc[1] == MINUS);
    } else {
        assert(enc[1] == numeral[0]);
        assert(is_digit(numeral[0]));
    }
    assert forall|i: int| start <= i < start + k implies is_digit(#[trigger] input[i]) by {
        assert(enc[i - pos] == numeral[i - start]);
    }
    assert(input[start + k] == enc[start - pos + k]);
    assert(enc[start - pos + k] == END);
    lemma_digits_end_run(input, start, start + k);
    assert(input.subrange(start, start + k) =~= numeral) by {
        assert forall|j: int| 0 <= j < k implies input[start + j] == numeral[j] by {
            assert(enc[start - pos + j] == numeral[j]);
        }
    }
    assert(input[start] == numeral[0]);
}

/// What was encoded decodes to itself: where the canonical encoding of `v`
/// stands at `pos`, the value read at `pos` is `v`, and reading stops right
/// after the encoding, whatever follows.
pub proof fn lemma_parse_value_encoded(input: Seq<u8>, pos: int, v: Bencode)
    requires
        v.canonical(),
        holds_at(input, pos, encode(v)),
    ensures
        parse_value(input, pos) == Ok::<_, DecodeError>((v, pos + encode(v).len())),
    decreases v, 1int,
{
    lemma_encode_first_byte(v);
    let enc = encode(v);
    assert(input[pos] == enc[0]) by {
        assert(input.subrange(pos, pos + enc.len())[0] == input[pos]);
    }
    match v {
        Bencode::Bytes(bytes) => {
            lemma_parse_string_encoded(input, pos, bytes);
        },
        Bencode::Int(number) => {
            lemma_parse_integer_encoded(input, pos, number);
        },
        Bencode::List(items) => {
            let body = encode_items(items) + seq![END];
            assert(enc =~= seq![LIST] + body);
            lemma_holds_at_split(input, pos, seq![LIST], body);
            lemma_parse_items_encoded(input, pos + 1, items);
        },
        Bencode::Dict(entries) => {
            let body = encode_entries(entries) + seq![END];
            assert(enc =~= seq![DICT] + body);
            lemma_holds_at_split(input, pos, seq![DICT], body);
            lemma_parse_entries_encoded(input, pos + 1, entries, None);
        },
    }
}

/// The items of an encoded list decode to themselves.
pub proof fn lemma_parse_items_encoded(input: Seq<u8>, pos: int, items: Seq<Bencode>)
    requires
        forall|i: int| 0 <= i < items.len() ==> (#[trigger] items[i]).canonical(),
        holds_at(input, pos, encode_items(items) + seq![END]),
    ensures
        parse_items(input, pos) == Ok::<_, DecodeError>(
            (items, pos + encode_items(items).len() + 1),
        ),
    decreases items, 0int,
{
    let body = encode_items(items) + seq![END];
    assert(input[pos] == body[0]) by {
        assert(input.subrange(pos, pos + body.len())[0] == input[pos]);
    }
    if items.len() == 0 {
        assert(items =~= Seq::<Bencode>::empty());
    } else {
        let first = encode(items[0]);
        let rest = items.skip(1);
        let tail = encode_items(rest) + seq![END];
        lemma_encode_first_byte(items[0]);
        assert(body =~= first + tail);
        assert(body[0] == first[0]);
        lemma_holds_at_split(input, pos, first, tail);
        lemma_parse_value_encoded(input, pos, items[0]);
        assert forall|i: int| 0 <= i < rest.len() implies (#[trigger] rest[i]).canonical() by {
            assert(rest[i] == items[i + 1]);
        }
        lemma_parse_items_encoded(input, pos + first.len(), rest);
        assert(seq![items[0]] + rest =~= items);
    }
}

/// The entries of an encoded dictionary decode to themselves, as long as
/// their keys ascend from `previous` on.
pub proof fn lemma_parse_entries_encoded(
    input: Seq<u8>,
    pos: int,
    entries: Seq<(Seq<u8>, Bencode)>,
    previous: Option<Seq<u8>>,
)
    requires
        strictly_ascending(entry_keys(entries)),
        forall|i: int| 0 <= i < entries.len() ==> (#[trigger] entries[i]).1.canonical(),
        previous is Some && entries.len() > 0 ==> lex_less(previous->0, entries[0].0),
        holds_at(input, pos, encode_entries(entries) + seq![END]),
    ensures
        parse_entries(input, pos, previous) == Ok::<_, DecodeError>(
            (entries, pos + encode_entries(entries).len() + 1),
        ),
    decreases entries, 0int,
{
    let body = encode_entries(entries) + seq![END];
    assert(input[pos] == body[0]) by {
        assert(input.subrange(pos, pos + body.len())[0] == input[pos]);
    }
    if entries.len() == 0 {
        assert(entries =~= Seq::<(Seq<u8>, Bencode)>::empty());
    } else {
        let key = entries[0].0;
        let value = entries[0].1;
        let key_enc = encode_bytes(key);
        let value_enc = encode(value);
        let rest = entries.skip(1);
        let tail = encode_entries(rest) + seq![END];
        lemma_encode_first_byte(Bencode::Bytes(key));
        lemma_encode_first_byte(value);
        assert(body =~= key_enc + (value_enc + tail));
        assert(body[0] == key_enc[0]);
        lemma_holds_at_split(input, pos, key_enc, value_enc + tail);
        lemma_holds_at_split(input, pos + key_enc.len(), value_enc, tail);
        lemma_parse_string_encoded(input, pos, key);
        lemma_parse_value_encoded(input, pos + key_enc.len(), value);
        assert forall|i: int| 0 <= i < rest.len() implies (#[trigger] rest[i]).1.canonical() by {
            assert(rest[i] == entries[i + 1]);
        }
        assert forall|i: int, j: int| 0 <= i < j < rest.len() implies lex_less(
            #[trigger] entry_keys(rest)[i],
            #[trigger] entry_keys(rest)[j],
        ) by {
            assert(lex_less(entry_keys(entries)[i + 1], entry_keys(entries)[j + 1]));
        }
        if rest.len() > 0 {
            assert(lex_less(entry_keys(entries)[0], entry_keys(entries)[1]));
            assert(rest[0] == entries[1]);
        }
        lemma_parse_entries_encoded(
            input,
            pos + key_enc.len() + value_enc.len(),
            rest,
            Some(key),
        );
        assert(seq![(key, value)] + rest =~= entries);
    }
}

/// Round trip: decoding the canonical encoding of a value gives the value
/// back and reads all of it, so encoding what was decoded gives the same
/// bytes again.
pub proof fn lemma_round_trip(v: Bencode)
    requires
        v.canonical(),
    ensures
        parse_value(encode(v), 0) == Ok::<_, DecodeError>((v, encode(v).len() as int)),
        parse_value(encode(v), 0) matches Ok((w, end)) && encode(w) == encode(v),
{
    let enc = encode(v);
    assert(enc.subrange(0, enc.len() as int) =~= enc);
    lemma_parse_value_encoded(enc, 0, v);
}

/// What decodes is canonical: a decoded value has the keys of every
/// dictionary in strictly ascending order, and it ends after the position
/// where it starts, within the input.
pub proof fn lemma_parse_value_canonical(input: Seq<u8>, pos: int)
    ensures
        parse_value(input, pos) matches Ok((v, end)) ==> v.canonical() && pos < end
            <= input.len(),
    decreases input.len() - pos, 1int,
{
    if 0 <= pos < input.len() {
        if is_digit(input[pos]) {
            lemma_parse_string_bounds(input, pos);
        } else if input[pos] == INTEGER {
            lemma_parse_integer_bounds(input, pos);
        } else if input[pos] == LIST {
            lemma_parse_items_canonical(input, pos + 1);
        } else if input[pos] == DICT {
            lemma_parse_entries_canonical(input, pos + 1, None);
        }
    }
}

/// A decoded byte-string ends after the position where it starts, within
/// the input.
pub proof fn lemma_parse_string_bounds(input: Seq<u8>, pos: int)
    ensures
        parse_string(input, pos) matches Ok((bytes, end)) ==> pos < end <= input.len(),
{
    if 0 <= pos < input.len() {
        lemma_digits_end_bounds(input, pos);
    }
}

/// A decoded integer ends after the position where it starts, within the
/// input.
pub proof fn lemma_parse_integer_bounds(input: Seq<u8>, pos: int)
    ensures
        parse_integer(input, pos) matches Ok((number, end)) ==> pos < end <= input.len(),
{
    if 0 <= pos < input.len() {
        let negative = pos + 1 < input.len() && input[pos + 1] == MINUS;
        let start = if negative {
            pos + 2
        } else {
            pos + 1
        };
        if start <= input.len() {
            lemma_digits_end_bounds(input, start);
        }
    }
}

/// Decoded list items are canonical.
pub proof fn lemma_parse_items_canonical(input: Seq<u8>, pos: int)
    ensures
        parse_items(input, pos) matches Ok((items, end)) ==> pos < end <= input.len() && forall|
            i: int,
        |
            0 <= i < items.len() ==> (#[trigger] items[i]).canonical(),
    decreases input.len() - pos, 2int,
{
    if 0 <= pos < input.len() && input[pos] != END {
        lemma_parse_value_canonical(input, pos);
        if let Ok((item, next)) = parse_value(input, pos) {
            if pos < next <= input.len() {
                lemma_parse_items_canonical(input, next);
            }
        }
    }
}

/// Decoded dictionary entries have canonical values and keys that ascend
/// strictly from `previous` on.
pub proof fn lemma_parse_entries_canonical(input: Seq<u8>, pos: int, previous: Option<Seq<u8>>)
    ensures
        parse_entries(input, pos, previous) matches Ok((entries, end)) ==> {
            &&& pos < end <= input.len()
            &&& strictly_ascending(entry_keys(entries))
            &&& forall|i: int| 0 <= i < entries.len() ==> (#[trigger] entries[i]).1.canonical()
            &&& previous is Some ==> forall|i: int|
                0 <= i < entries.len() ==> lex_less(previous->0, (#[trigger] entries[i]).0)
        },
    decreases input.len() - pos, 2int,
{
    if 0 <= pos < input.len() && input[pos] != END {
        lemma_parse_string_bounds(input, pos);
        if let Ok((key, key_end)) = parse_string(input, pos) {
            if !(previous is Some && !lex_less(previous->0, key)) && pos < key_end <= input.len() {
                lemma_parse_value_canonical(input, key_end);
                if let Ok((value, next)) = parse_value(input, key_end) {
                    if key_end < next <= input.len() {
                        lemma_parse_entries_canonical(input, next, Some(key));
                        if let Ok((rest, end)) = parse_entries(input, next, Some(key)) {
                            let entries = seq![(key, value)] + rest;
                            assert forall|i: int, j: int|
                                0 <= i < j < entries.len() implies lex_less(
                                #[trigger] entry_keys(entries)[i],
                                #[trigger] entry_keys(entries)[j],
                            ) by {
                                assert(entries[j] == rest[j - 1]);
                                if i > 0 {
                                    assert(entries[i] == rest[i - 1]);
                                    assert(lex_less(
                                        entry_keys(rest)[i - 1],
                                        entry_keys(rest)[j - 1],
                                    ));
                                }
                            }
                            assert forall|i: int| 0 <= i < entries.len() implies (
                            #[trigger] entries[i]).1.canonical() by {
                                if i > 0 {
                                    assert(entries[i] == rest[i - 1]);
                                }
                            }
                            if previous is Some {
                                assert forall|i: int| 0 <= i < entries.len() implies lex_less(
                                    previous->0,
                                    (#[trigger] entries[i]).0,
                                ) by {
                                    if i > 0 {
                                        assert(entries[i] == rest[i - 1]);
                                        lemma_lex_transitive(previous->0, key, rest[i - 1].0);
                                    }
                                }
                            }
                        }
                    }
                }
            }
        }
    }
}

/// Two windows of the input, one after the other, make one window.
pub proof fn lemma_windows_join(input: Seq<u8>, from: int, mid: int, to: int)
    requires
        0 <= from <= mid <= to <= input.len(),
    ensures
        input.subrange(from, to) == input.subrange(from, mid) + input.subrange(mid, to),
{
    assert(input.subrange(from, to) =~= input.subrange(from, mid) + input.subrange(mid, to));
}

/// A decoded byte-string is encoded in no more bytes than it was read from,
/// and in as many only if into the very same bytes: all that can differ is
/// leading zeros in the length.
pub proof fn lemma_reencode_string(input: Seq<u8>, pos: int)
    ensures
        parse_string(input, pos) matches Ok((bytes, end)) ==> encode_bytes(bytes).len() <= end
            - pos && (encode_bytes(bytes).len() == end - pos ==> input.subrange(pos, end)
            == encode_bytes(bytes)),
{
    if let Ok((bytes, end)) = parse_string(input, pos) {
        lemma_digits_end_bounds(input, pos);
        let colon = digits_end(input, pos);
        let digits = input.subrange(pos, colon);
        assert(all_digits(digits)) by {
            assert forall|i: int| 0 <= i < digits.len() implies is_digit(#[trigger] digits[i]) by {
                assert(digits[i] == input[pos + i]);
            }
        }
        lemma_numeral_shortest(digits);
        if encode_bytes(bytes).len() == end - pos {
            assert(input.subrange(pos, end) =~= digits + seq![COLON] + bytes);
        }
    }
}

/// A decoded integer is encoded into the very bytes it was read from.
pub proof fn lemma_reencode_integer(input: Seq<u8>, pos: int)
    ensures
        parse_integer(input, pos) matches Ok((number, end)) ==> input.subrange(pos, end) == encode(
            Bencode::Int(number),
        ),
{
    if let Ok((number, end)) = parse_integer(input, pos) {
        let negative = pos + 1 < input.len() && input[pos + 1] == MINUS;
        let start = if negative {
            pos + 2
        } else {
            pos + 1
        };
        lemma_digits_end_bounds(input, start);
        let stop = digits_end(input, start);
        let digits = input.subrange(start, stop);
        assert(all_digits(digits)) by {
            assert forall|i: int| 0 <= i < digits.len() implies is_digit(#[trigger] digits[i]) by {
                assert(digits[i] == input[start + i]);
            }
        }
        assert(digits[0] == input[start]);
        lemma_value_decimal(digits);
        if negative {
            lemma_value_positive(digits);
            assert(input.subrange(pos, end) =~= seq![INTEGER] + (seq![MINUS] + digits) + seq![END]);
        } else {
            assert(input.subrange(pos, end) =~= seq![INTEGER] + digits + seq![END]);
        }
    }
}

/// Decoding then encoding: a decoded value is encoded in no more bytes than
/// it was read from, and in as many only if into the very same bytes. All
/// that decoding forgives, and encoding does not give back, is leading zeros
/// in the lengths of byte-strings.
pub proof fn lemma_reencode_value(input: Seq<u8>, pos: int)
    ensures
        parse_value(input, pos) matches Ok((v, end)) ==> encode(v).len() <= end - pos && (encode(
            v,
        ).len() == end - pos ==> input.subrange(pos, end) == encode(v)),
    decreases input.len() - pos, 1int,
{
    if 0 <= pos < input.len() {
        if is_digit(input[pos]) {
            lemma_reencode_string(input, pos);
        } else if input[pos] == INTEGER {
            lemma_reencode_integer(input, pos);
            lemma_parse_integer_bounds(input, pos);
        } else if input[pos] == LIST {
            lemma_reencode_items(input, pos + 1);
            if let Ok((items, end)) = parse_items(input, pos + 1) {
                lemma_parse_items_canonical(input, pos + 1);
                if encode(Bencode::List(items)).len() == end - pos {
                    lemma_windows_join(input, pos, pos + 1, end);
                    assert(input.subrange(pos, pos + 1) =~= seq![LIST]);
                    assert(input.subrange(pos, end) =~= encode(Bencode::List(items)));
                }
            }
        } else if input[pos] == DICT {
            lemma_reencode_entries(input, pos + 1, None);
            if let Ok((entries, end)) = parse_entries(input, pos + 1, None) {
                lemma_parse_entries_canonical(input, pos + 1, None);
                if encode(Bencode::Dict(entries)).len() == end - pos {
                    lemma_windows_join(input, pos, pos + 1, end);
                    assert(input.subrange(pos, pos + 1) =~= seq![DICT]);
                    assert(input.subrange(pos, end) =~= encode(Bencode::Dict(entries)));
                }
            }
        }
    }
}

/// The items of a decoded list, with the `e` that ends them, are encoded
/// in no more bytes than they were read from, and in as many only if into
/// the very same bytes.
pub proof fn lemma_reencode_items(input: Seq<u8>, pos: int)
    ensures
        parse_items(input, pos) matches Ok((items, end)) ==> encode_items(items).len() + 1 <= end
            - pos && (encode_items(items).len() + 1 == end - pos ==> input.subrange(pos, end)
            == encode_items(items) + seq![END]),
    decreases input.len() - pos, 2int,
{
    if 0 <= pos < input.len() {
        if input[pos] == END {
            assert(input.subrange(pos, pos + 1) =~= Seq::<u8>::empty() + seq![END]);
        } else {
            lemma_reencode_value(input, pos);
            if let Ok((item, next)) = parse_value(input, pos) {
                if pos < next <= input.len() {
                    lemma_reencode_items(input, next);
                    if let Ok((rest, end)) = parse_items(input, next) {
                        lemma_parse_items_canonical(input, next);
                        let items = seq![item] + rest;
                        assert(items.skip(1) =~= rest);
                        assert(encode_items(items) == encode(item) + encode_items(rest));
                        if encode_items(items).len() + 1 == end - pos {
                            lemma_windows_join(input, pos, next, end);
                            assert(input.subrange(pos, end) =~= encode_items(items) + seq![END]);
                        }
                    }
                }
            }
        }
    }
}

/// The entries of a decoded dictionary, with the `e` that ends them, are
/// encoded in no more bytes than they were read from, and in as many only
/// if into the very same bytes.
pub proof fn lemma_reencode_entries(input: Seq<u8>, pos: int, previous: Option<Seq<u8>>)
    ensures
        parse_entries(input, pos, previous) matches Ok((entries, end)) ==> encode_entries(
            entries,
        ).len() + 1 <= end - pos && (encode_entries(entries).len() + 1 == end - pos
            ==> input.subrange(pos, end) == encode_entries(entries) + seq![END]),
    decreases input.len() - pos, 2int,
{
    if 0 <= pos < input.len() {
        if input[pos] == END {
            assert(input.subrange(pos, pos + 1) =~= Seq::<u8>::empty() + seq![END]);
        } else {
            lemma_reencode_string(input, pos);
            if let Ok((key, key_end)) = parse_string(input, pos) {
                if !(previous is Some && !lex_less(previous->0, key)) && pos < key_end
                    <= input.len() {
                    lemma_reencode_value(input, key_end);
                    if let Ok((value, next)) = parse_value(input, key_end) {
                        if key_end < next <= input.len() {
                            lemma_reencode_entries(input, next, Some(key));
                            if let Ok((rest, end)) = parse_entries(input, next, Some(key)) {
                                lemma_parse_entries_canonical(input, next, Some(key));
                                let entries = seq![(key, value)] + rest;
                                assert(entries.skip(1) =~= rest);
                                assert(encode_entries(entries) == encode_bytes(key) + encode(value)
                                    + encode_entries(rest));
                                if encode_entries(entries).len() + 1 == end - pos {
                                    lemma_windows_join(input, pos, key_end, end);
                                    lemma_windows_join(input, key_end, next, end);
                                    assert(input.subrange(pos, end) =~= encode_entries(entries)
                                        + seq![END]);
                                }
                            }
                        }
                    }
                }
            }
        }
    }
}

/// Encoding loses nothing of what was decoded: the encoding of a decoded
/// value decodes to that same value.
pub proof fn lemma_decode_encode_decode(input: Seq<u8>)
    ensures
        parse_value(input, 0) matches Ok((v, end)) ==> parse_value(encode(v), 0) == Ok::<
            _,
            DecodeError,
        >((v, encode(v).len() as int)),
{
    lemma_parse_value_canonical(input, 0);
    if let Ok((v, end)) = parse_value(input, 0) {
        lemma_round_trip(v);
    }
}

} // verus!
