//! Bencoded values in memory: building them, encoding them, and decoding
//! them from bytes.

use vstd::prelude::*;
use vstd::slice::{slice_subrange, slice_to_vec};
use vstd::utf8::encode_utf8;

use crate::ascii::{COLON, DICT, END, INTEGER, LIST, MINUS, NINE, ZERO};
use crate::bencode::{
    display_entries, display_items, display_text, encode, encode_entries, encode_items,
    entry_keys, insert_entry, lemma_encode_entries_push, lemma_encode_items_push,
    lemma_insert_ascending, lemma_insert_entry_at, lemma_lookup_absent, lemma_lookup_first, lookup,
    Bencode,
};
use crate::decimal::{digits_value, push_decimal, push_signed_decimal};
use crate::grammar::{
    digits_end, parse_dict, parse_entries, parse_integer, parse_integer_value, parse_items,
    parse_list, parse_string, parse_string_value, parse_value, DecodeError, DecodeErrorKind,
};
use crate::lex::{
    bytes_equal, bytes_less, lemma_lex_irreflexive, lemma_lex_transitive, lex_less,
    strictly_ascending,
};
use crate::text::{lossy_text, push_signed_decimal_text, utf8_lossy};

verus! {

/// A bencoded byte-string: opaque bytes, not necessarily text.
#[derive(Debug, PartialEq, Eq, Hash, PartialOrd, Ord, Clone)]
pub struct BencodedString(pub Vec<u8>);

impl View for BencodedString {
    type V = Seq<u8>;

    open spec fn view(&self) -> Seq<u8> {
        self.0@
    }
}

impl BencodedString {
    /// The number of bytes in the string.
    pub fn len(&self) -> (n: usize)
        ensures
            n == self@.len(),
    {
        self.0.len()
    }

    /// The string as text, with a replacement character wherever the bytes
    /// are not UTF-8.
    pub fn to_string(&self) -> (s: String)
        ensures
            s@ == utf8_lossy(self@),
    {
        lossy_text(self.0.as_slice())
    }
}

impl From<Vec<u8>> for BencodedString {
    /// The byte-string that holds exactly the bytes of `value`.
    fn from(value: Vec<u8>) -> (s: BencodedString)
        ensures
            s@ == value@,
    {
        BencodedString(value)
    }
}

impl vstd::std_specs::convert::FromSpecImpl<Vec<u8>> for BencodedString {
    open spec fn obeys_from_spec() -> bool {
        true
    }

    open spec fn from_spec(value: Vec<u8>) -> BencodedString {
        BencodedString(value)
    }
}

impl From<String> for BencodedString {
    /// The byte-string that holds the UTF-8 encoding of `value`.
    fn from(value: String) -> (s: BencodedString)
        ensures
            s@ == encode_utf8(value@),
    {
        BencodedString(value.as_str().as_bytes_vec())
    }
}

/// No function of the string names the new byte-string, which owns its
/// bytes; the contract of `from` says what it holds.
impl vstd::std_specs::convert::FromSpecImpl<String> for BencodedString {
    open spec fn obeys_from_spec() -> bool {
        false
    }

    open spec fn from_spec(value: String) -> BencodedString {
        arbitrary()
    }
}

impl From<&[u8]> for BencodedString {
    /// The byte-string that holds a copy of the bytes of `value`.
    fn from(value: &[u8]) -> (s: BencodedString)
        ensures
            s@ == value@,
    {
        BencodedString(slice_to_vec(value))
    }
}

/// No function of the slice names the new byte-string, which owns its
/// bytes; the contract of `from` says what it holds.
impl vstd::std_specs::convert::FromSpecImpl<&[u8]> for BencodedString {
    open spec fn obeys_from_spec() -> bool {
        false
    }

    open spec fn from_spec(value: &[u8]) -> BencodedString {
        arbitrary()
    }
}

/// A bencoded value.
#[derive(Debug, PartialEq)]
pub enum BencodedValue {
    String(BencodedString),
    Integer(i64),
    List(Vec<BencodedValue>),
    Dict(BencodedDict),
}

/// A dictionary of bencoded values. Its keys are byte-strings, kept in
/// strictly ascending lexicographic order whatever the order in which they
/// were inserted, so no key occurs twice.
#[derive(Debug, PartialEq)]
pub struct BencodedDict {
    entries: Vec<(BencodedString, BencodedValue)>,
}

/// What a list of values stands for, item by item.
pub open spec fn view_items(items: Seq<BencodedValue>) -> Seq<Bencode>
    decreases items,
{
    Seq::new(
        items.len(),
        |i: int|
            if 0 <= i < items.len() {
                items[i].view()
            } else {
                arbitrary()
            },
    )
}

/// What a list of entries stands for, entry by entry.
pub open spec fn view_entries(entries: Seq<(BencodedString, BencodedValue)>) -> Seq<
    (Seq<u8>, Bencode),
>
    decreases entries,
{
    Seq::new(
        entries.len(),
        |i: int|
            if 0 <= i < entries.len() {
                (entries[i].0@, entries[i].1.view())
            } else {
                arbitrary()
            },
    )
}

impl View for BencodedValue {
    type V = Bencode;

    open spec fn view(&self) -> Bencode
        decreases self,
    {
        match self {
            BencodedValue::String(s) => Bencode::Bytes(s@),
            BencodedValue::Integer(i) => Bencode::Int(*i),
            BencodedValue::List(items) => Bencode::List(view_items(items@)),
            BencodedValue::Dict(d) => Bencode::Dict(d.view()),
        }
    }
}

impl View for BencodedDict {
    type V = Seq<(Seq<u8>, Bencode)>;

    closed spec fn view(&self) -> Seq<(Seq<u8>, Bencode)>
        decreases self,
    {
        view_entries(self.entries@)
    }
}

impl BencodedDict {
    #[verifier::type_invariant]
    spec fn ordered(self) -> bool {
        strictly_ascending(entry_keys(self@))
    }

    /// The empty dictionary.
    pub fn new() -> (d: BencodedDict)
        ensures
            d@ == Seq::<(Seq<u8>, Bencode)>::empty(),
    {
        let d = BencodedDict { entries: Vec::new() };
        d
    }

    /// The number of entries.
    pub fn len(&self) -> (n: usize)
        ensures
            n == self@.len(),
    {
        self.entries.len()
    }

    /// The entries in ascending order of their keys. Each of them is a
    /// part of the dictionary, and so smaller than it.
    pub fn entries(&self) -> (entries: &Vec<(BencodedString, BencodedValue)>)
        ensures
            view_entries(entries@) == self@,
            strictly_ascending(entry_keys(self@)),
            forall|i: int|
                0 <= i < entries@.len() ==> decreases_to!(*self => (#[trigger] entries@[i]).1),
    {
        proof {
            use_type_invariant(self);
        }
        &self.entries
    }

    /// The value stored under `key`, if there is one.
    pub fn get(&self, key: &BencodedString) -> (found: Option<&BencodedValue>)
        ensures
            match found {
                Some(value) => lookup(self@, key@) == Some(value@),
                None => lookup(self@, key@) is None,
            },
    {
        let mut i: usize = 0;
        while i < self.entries.len()
            invariant
                i <= self.entries.len(),
                forall|j: int| 0 <= j < i ==> (#[trigger] self@[j]).0 != key@,
            decreases self.entries.len() - i,
        {
            if bytes_equal(self.entries[i].0.0.as_slice(), key.0.as_slice()) {
                proof {
                    lemma_lookup_first(self@, key@, i as int);
                }
                return Some(&self.entries[i].1);
            }
            i += 1;
        }
        proof {
            lemma_lookup_absent(self@, key@);
        }
        None
    }

    /// Binds `key` to `value` and returns what the key was bound to before.
    /// The entry takes its place in key order, wherever it is inserted from.
    pub fn insert(&mut self, key: BencodedString, value: BencodedValue) -> (previous: Option<
        BencodedValue,
    >)
        ensures
            final(self)@ == insert_entry(old(self)@, key@, value@),
            match previous {
                Some(was) => lookup(old(self)@, key@) == Some(was@),
                None => lookup(old(self)@, key@) is None,
            },
    {
        proof {
            use_type_invariant(&*self);
        }
        let ghost before = self@;
        let ghost bound = (key@, value@);
        let mut entries: Vec<(BencodedString, BencodedValue)> = Vec::new();
        core::mem::swap(&mut self.entries, &mut entries);
        let mut at: usize = 0;
        while at < entries.len() && bytes_less(entries[at].0.0.as_slice(), key.0.as_slice())
            invariant
                at <= entries.len(),
                view_entries(entries@) == before,
                forall|i: int| 0 <= i < at ==> lex_less((#[trigger] before[i]).0, key@),
            decreases entries.len() - at,
        {
            at += 1;
        }
        proof {
            lemma_insert_entry_at(before, key@, value@, at as int);
            lemma_lex_irreflexive(key@);
        }
        let previous = if at < entries.len() && bytes_equal(
            entries[at].0.0.as_slice(),
            key.0.as_slice(),
        ) {
            let was = entries.remove(at);
            proof {
                lemma_lookup_first(before, key@, at as int);
            }
            Some(was.1)
        } else {
            proof {
                assert forall|j: int| 0 <= j < before.len() implies (#[trigger] before[j]).0
                    != key@ by {
                    if j > at {
                        assert(lex_less(entry_keys(before)[at as int], entry_keys(before)[j]));
                    }
                }
                lemma_lookup_absent(before, key@);
            }
            None
        };
        entries.insert(at, (key, value));
        proof {
            assert(view_entries(entries@) =~= insert_entry(before, bound.0, bound.1));
            lemma_insert_ascending(before, bound.0, bound.1);
        }
        self.entries = entries;
        previous
    }
}

/// Appends the canonical encoding of `v` to `out`. Dictionaries come out with
/// their keys in strictly ascending order at every depth.
pub fn encode_value(v: &BencodedValue, out: &mut Vec<u8>)
    ensures
        final(out)@ == old(out)@ + encode(v@),
        v@.canonical(),
    decreases v,
{
    match v {
        BencodedValue::String(s) => {
            push_decimal(out, s.0.len() as u64);
            out.push(COLON);
            out.extend_from_slice(s.0.as_slice());
        },
        BencodedValue::Integer(i) => {
            out.push(INTEGER);
            push_signed_decimal(out, *i);
            out.push(END);
        },
        BencodedValue::List(items) => {
            out.push(LIST);
            let ghost model = view_items(items@);
            let mut i: usize = 0;
            while i < items.len()
                invariant
                    i <= items.len(),
                    *v == BencodedValue::List(*items),
                    model == view_items(items@),
                    out@ == old(out)@ + seq![LIST] + encode_items(model.take(i as int)),
                    forall|j: int| 0 <= j < i ==> (#[trigger] model[j]).canonical(),
                decreases items.len() - i,
            {
                proof {
                    assert(decreases_to!(*v => v->List_0));
                }
                encode_value(&items[i], out);
                proof {
                    lemma_encode_items_push(model.take(i as int), model[i as int]);
                    assert(model.take(i + 1) =~= model.take(i as int).push(model[i as int]));
                }
                i += 1;
            }
            out.push(END);
            proof {
                assert(model.take(i as int) =~= model);
            }
        },
        BencodedValue::Dict(d) => {
            out.push(DICT);
            let entries = &d.entries;
            let ghost model = d@;
            proof {
                use_type_invariant(d);
            }
            let mut i: usize = 0;
            while i < entries.len()
                invariant
                    i <= entries.len(),
                    *v == BencodedValue::Dict(*d),
                    entries == &d.entries,
                    model == view_entries(entries@),
                    out@ == old(out)@ + seq![DICT] + encode_entries(model.take(i as int)),
                    forall|j: int| 0 <= j < i ==> (#[trigger] model[j]).1.canonical(),
                decreases entries.len() - i,
            {
                let entry = &entries[i];
                push_decimal(out, entry.0.0.len() as u64);
                out.push(COLON);
                out.extend_from_slice(entry.0.0.as_slice());
                proof {
                    assert(decreases_to!(*v => v->Dict_0));
                }
                encode_value(&entry.1, out);
                proof {
                    lemma_encode_entries_push(model.take(i as int), model[i as int]);
                    assert(model.take(i + 1) =~= model.take(i as int).push(model[i as int]));
                }
                i += 1;
            }
            out.push(END);
            proof {
                assert(model.take(i as int) =~= model);
            }
        },
    }
}

/// What a decoder's result stands for: the value and the position after it,
/// or the error.
pub open spec fn decoded(r: Result<(usize, BencodedValue), DecodeError>) -> Result<
    (Bencode, int),
    DecodeError,
> {
    match r {
        Ok((end, value)) => Ok((value@, end as int)),
        Err(e) => Err(e),
    }
}

/// The items already decoded, put before what the rest of a list yields.
pub open spec fn items_then(done: Seq<Bencode>, rest: Result<(Seq<Bencode>, int), DecodeError>) -> Result<
    (Seq<Bencode>, int),
    DecodeError,
> {
    match rest {
        Ok((items, end)) => Ok((done + items, end)),
        Err(e) => Err(e),
    }
}

/// The entries already decoded, put before what the rest of a dictionary
/// yields.
pub open spec fn entries_then(
    done: Seq<(Seq<u8>, Bencode)>,
    rest: Result<(Seq<(Seq<u8>, Bencode)>, int), DecodeError>,
) -> Result<(Seq<(Seq<u8>, Bencode)>, int), DecodeError> {
    match rest {
        Ok((entries, end)) => Ok((done + entries, end)),
        Err(e) => Err(e),
    }
}

/// Reads the run of digits that starts at `from`. Returns where it ends and
/// the number it denotes, or `None` for a number above `limit`.
fn scan_digits(input: &[u8], from: usize, limit: u64) -> (r: (usize, Option<u64>))
    requires
        from <= input.len(),
    ensures
        r.0 == digits_end(input@, from as int),
        from <= r.0 <= input.len(),
        match r.1 {
            Some(n) => n == digits_value(input@.subrange(from as int, r.0 as int)) && n <= limit,
            None => digits_value(input@.subrange(from as int, r.0 as int)) > limit,
        },
{
    let mut at: usize = from;
    let mut number: u64 = 0;
    let mut above: bool = false;
    while at < input.len() && input[at] >= ZERO && input[at] <= NINE
        invariant
            from <= at <= input.len(),
            digits_end(input@, from as int) == digits_end(input@, at as int),
            !above ==> number == digits_value(input@.subrange(from as int, at as int)) && number
                <= limit,
            above ==> digits_value(input@.subrange(from as int, at as int)) > limit,
        decreases input.len() - at,
    {
        let d: u8 = input[at] - ZERO;
        proof {
            let longer = input@.subrange(from as int, at + 1);
            assert(longer.drop_last() =~= input@.subrange(from as int, at as int));
        }
        if !above {
            let next: u128 = (number as u128) * 10 + (d as u128);
            if next > limit as u128 {
                above = true;
            } else {
                number = next as u64;
            }
        }
        at += 1;
    }
    if above {
        (at, None)
    } else {
        (at, Some(number))
    }
}

/// Decodes the byte-string that starts at `pos`; returns the position after
/// it along with it.
fn decode_string_at(input: &[u8], pos: usize) -> (r: Result<(usize, BencodedString), DecodeError>)
    ensures
        match r {
            Ok((end, s)) => parse_string(input@, pos as int) == Ok::<_, DecodeError>((s@, end as int))
                && pos < end <= input.len(),
            Err(e) => parse_string(input@, pos as int) == Err::<(Seq<u8>, int), _>(e),
        },
{
    if pos >= input.len() {
        return Err(DecodeError { kind: DecodeErrorKind::Truncated, offset: pos });
    }
    let (colon, length) = scan_digits(input, pos, usize::MAX as u64);
    if colon == pos {
        return Err(DecodeError { kind: DecodeErrorKind::InvalidLength, offset: pos });
    }
    if colon >= input.len() {
        return Err(DecodeError { kind: DecodeErrorKind::MissingColon, offset: colon });
    }
    if input[colon] != COLON {
        return Err(DecodeError { kind: DecodeErrorKind::InvalidLength, offset: colon });
    }
    let start: usize = colon + 1;
    let room: usize = input.len() - start;
    match length {
        Some(n) => {
            if n > room as u64 {
                Err(DecodeError { kind: DecodeErrorKind::Truncated, offset: input.len() })
            } else {
                let end: usize = start + n as usize;
                let bytes = slice_to_vec(slice_subrange(input, start, end));
                Ok((end, BencodedString(bytes)))
            }
        },
        None => Err(DecodeError { kind: DecodeErrorKind::Truncated, offset: input.len() }),
    }
}

/// Decodes the integer that starts at `pos`; returns the position after it
/// along with it.
fn decode_integer_at(input: &[u8], pos: usize) -> (r: Result<(usize, i64), DecodeError>)
    ensures
        match r {
            Ok((end, number)) => parse_integer(input@, pos as int) == Ok::<_, DecodeError>(
                (number, end as int),
            ) && pos < end <= input.len(),
            Err(e) => parse_integer(input@, pos as int) == Err::<(i64, int), _>(e),
        },
{
    if pos >= input.len() {
        return Err(DecodeError { kind: DecodeErrorKind::Truncated, offset: pos });
    }
    if input[pos] != INTEGER {
        return Err(DecodeError { kind: DecodeErrorKind::InvalidInteger, offset: pos });
    }
    let negative: bool = pos + 1 < input.len() && input[pos + 1] == MINUS;
    let start: usize = if negative {
        pos + 2
    } else {
        pos + 1
    };
    let (end, magnitude) = scan_digits(input, start, 9223372036854775808u64);
    if end >= input.len() {
        return Err(DecodeError { kind: DecodeErrorKind::Truncated, offset: input.len() });
    }
    if end == start || input[end] != END {
        return Err(DecodeError { kind: DecodeErrorKind::InvalidInteger, offset: end });
    }
    if input[start] == ZERO && (negative || end - start > 1) {
        return Err(DecodeError { kind: DecodeErrorKind::InvalidInteger, offset: start });
    }
    match magnitude {
        Some(m) => {
            if negative {
                let number: i64 = if m == 9223372036854775808u64 {
                    i64::MIN
                } else {
                    -(m as i64)
                };
                Ok((end + 1, number))
            } else if m > 9223372036854775807u64 {
                Err(DecodeError { kind: DecodeErrorKind::Overflow, offset: pos })
            } else {
                Ok((end + 1, m as i64))
            }
        },
        None => Err(DecodeError { kind: DecodeErrorKind::Overflow, offset: pos }),
    }
}

/// Decodes the value that starts at `pos`; returns the position after it
/// along with it.
fn decode_value_at(input: &[u8], pos: usize) -> (r: Result<(usize, BencodedValue), DecodeError>)
    ensures
        decoded(r) == parse_value(input@, pos as int),
        r matches Ok((end, _)) ==> pos < end <= input.len(),
    decreases input.len() - pos, 1int,
{
    if pos >= input.len() {
        return Err(DecodeError { kind: DecodeErrorKind::Truncated, offset: pos });
    }
    let first: u8 = input[pos];
    if first >= ZERO && first <= NINE {
        match decode_string_at(input, pos) {
            Ok((end, s)) => Ok((end, BencodedValue::String(s))),
            Err(e) => Err(e),
        }
    } else if first == INTEGER {
        match decode_integer_at(input, pos) {
            Ok((end, number)) => Ok((end, BencodedValue::Integer(number))),
            Err(e) => Err(e),
        }
    } else if first == LIST {
        decode_list_at(input, pos)
    } else if first == DICT {
        decode_dict_at(input, pos)
    } else {
        Err(DecodeError { kind: DecodeErrorKind::UnknownPrefix, offset: pos })
    }
}

/// Decodes the list that starts at `pos`; returns the position after it
/// along with it.
fn decode_list_at(input: &[u8], pos: usize) -> (r: Result<(usize, BencodedValue), DecodeError>)
    ensures
        decoded(r) == parse_list(input@, pos as int),
        r matches Ok((end, _)) ==> pos < end <= input.len(),
    decreases input.len() - pos, 0int,
{
    if pos >= input.len() {
        return Err(DecodeError { kind: DecodeErrorKind::Truncated, offset: pos });
    }
    if input[pos] != LIST {
        return Err(DecodeError { kind: DecodeErrorKind::UnknownPrefix, offset: pos });
    }
    let mut items: Vec<BencodedValue> = Vec::new();
    let mut at: usize = pos + 1;
    loop
        invariant
            pos < at <= input.len(),
            input@[pos as int] == LIST,
            items_then(view_items(items@), parse_items(input@, at as int)) == parse_items(
                input@,
                pos + 1,
            ),
        decreases input.len() - at,
    {
        if at >= input.len() {
            return Err(DecodeError { kind: DecodeErrorKind::Truncated, offset: input.len() });
        }
        if input[at] == END {
            return Ok((at + 1, BencodedValue::List(items)));
        }
        match decode_value_at(input, at) {
            Err(e) => {
                return Err(e);
            },
            Ok((next, item)) => {
                let ghost done = view_items(items@);
                items.push(item);
                proof {
                    assert(view_items(items@) =~= done.push(item@));
                    match parse_items(input@, next as int) {
                        Ok((rest, end)) => {
                            assert(done + (seq![item@] + rest) =~= done.push(item@) + rest);
                        },
                        Err(e) => {},
                    }
                }
                at = next;
            },
        }
    }
}

/// Decodes the dictionary that starts at `pos`; returns the position after
/// it along with it.
fn decode_dict_at(input: &[u8], pos: usize) -> (r: Result<(usize, BencodedValue), DecodeError>)
    ensures
        decoded(r) == parse_dict(input@, pos as int),
        r matches Ok((end, _)) ==> pos < end <= input.len(),
    decreases input.len() - pos, 0int,
{
    if pos >= input.len() {
        return Err(DecodeError { kind: DecodeErrorKind::Truncated, offset: pos });
    }
    if input[pos] != DICT {
        return Err(DecodeError { kind: DecodeErrorKind::UnknownPrefix, offset: pos });
    }
    let mut entries: Vec<(BencodedString, BencodedValue)> = Vec::new();
    let mut at: usize = pos + 1;
    loop
        invariant
            pos < at <= input.len(),
            input@[pos as int] == DICT,
            strictly_ascending(entry_keys(view_entries(entries@))),
            entries_then(
                view_entries(entries@),
                parse_entries(
                    input@,
                    at as int,
                    if entries.len() == 0 {
                        None
                    } else {
                        Some(entries@.last().0@)
                    },
                ),
            ) == parse_entries(input@, pos + 1, None),
        decreases input.len() - at,
    {
        if at >= input.len() {
            return Err(DecodeError { kind: DecodeErrorKind::Truncated, offset: input.len() });
        }
        if input[at] == END {
            let dict = BencodedDict { entries };
            return Ok((at + 1, BencodedValue::Dict(dict)));
        }
        let (key_end, key) = match decode_string_at(input, at) {
            Err(e) => {
                return Err(e);
            },
            Ok(found) => found,
        };
        if entries.len() > 0 && !bytes_less(
            entries[entries.len() - 1].0.0.as_slice(),
            key.0.as_slice(),
        ) {
            return Err(DecodeError { kind: DecodeErrorKind::MisorderedKeys, offset: at });
        }
        match decode_value_at(input, key_end) {
            Err(e) => {
                return Err(e);
            },
            Ok((next, value)) => {
                let ghost done = view_entries(entries@);
                let ghost entry = (key@, value@);
                entries.push((key, value));
                proof {
                    let now = view_entries(entries@);
                    assert(now =~= done.push(entry));
                    match parse_entries(input@, next as int, Some(entry.0)) {
                        Ok((rest, end)) => {
                            assert(done + (seq![entry] + rest) =~= done.push(entry) + rest);
                        },
                        Err(e) => {},
                    }
                    assert forall|i: int, j: int| 0 <= i < j < now.len() implies lex_less(
                        #[trigger] entry_keys(now)[i],
                        #[trigger] entry_keys(now)[j],
                    ) by {
                        if j < done.len() {
                            assert(lex_less(entry_keys(done)[i], entry_keys(done)[j]));
                        } else if i < done.len() - 1 {
                            assert(lex_less(entry_keys(done)[i], entry_keys(done)[done.len() - 1]));
                            lemma_lex_transitive(done[i].0, done[done.len() - 1].0, entry.0);
                        }
                    }
                }
                at = next;
            },
        }
    }
}

/// Decodes the byte-string at the start of `encoded_value`: decimal digits
/// up to a colon give a length, and that many bytes follow, kept as they
/// are. Returns the number of bytes read along with the value.
pub fn decode_bencoded_string(encoded_value: &[u8]) -> (r: Result<
    (usize, BencodedValue),
    DecodeError,
>)
    ensures
        decoded(r) == parse_string_value(encoded_value@, 0),
{
    match decode_string_at(encoded_value, 0) {
        Ok((end, s)) => Ok((end, BencodedValue::String(s))),
        Err(e) => Err(e),
    }
}

/// Decodes the integer at the start of `encoded_value`: `i`, a decimal
/// number that fits in 64 bits, `e`. Returns the number of bytes read along
/// with the value.
pub fn decode_bencoded_integer(encoded_value: &[u8]) -> (r: Result<
    (usize, BencodedValue),
    DecodeError,
>)
    ensures
        decoded(r) == parse_integer_value(encoded_value@, 0),
{
    match decode_integer_at(encoded_value, 0) {
        Ok((end, number)) => Ok((end, BencodedValue::Integer(number))),
        Err(e) => Err(e),
    }
}

/// Decodes the list at the start of `encoded_value`: `l`, values, `e`.
/// Returns the number of bytes read along with the value.
pub fn decode_bencoded_list(encoded_value: &[u8]) -> (r: Result<
    (usize, BencodedValue),
    DecodeError,
>)
    ensures
        decoded(r) == parse_list(encoded_value@, 0),
{
    decode_list_at(encoded_value, 0)
}

/// Decodes the dictionary at the start of `encoded_value`: `d`, keys and
/// values in turn with the keys in strictly ascending order, `e`. Returns
/// the number of bytes read along with the value.
pub fn decode_bencoded_dict(encoded_value: &[u8]) -> (r: Result<
    (usize, BencodedValue),
    DecodeError,
>)
    ensures
        decoded(r) == parse_dict(encoded_value@, 0),
{
    decode_dict_at(encoded_value, 0)
}

/// Decodes the value at the start of `encoded_value`, whatever its kind.
/// Returns the number of bytes read along with the value.
pub fn decode_bencoded_value(encoded_value: &[u8]) -> (r: Result<
    (usize, BencodedValue),
    DecodeError,
>)
    ensures
        decoded(r) == parse_value(encoded_value@, 0),
{
    decode_value_at(encoded_value, 0)
}

/// Appends the value, written out for people, to `out`.
pub fn push_display(v: &BencodedValue, out: &mut String)
    ensures
        final(out)@ == old(out)@ + display_text(v@),
    decreases v,
{
    match v {
        BencodedValue::String(s) => {
            let text = s.to_string();
            out.append(text.as_str());
        },
        BencodedValue::Integer(i) => {
            push_signed_decimal_text(out, *i);
        },
        BencodedValue::List(items) => {
            out.append("[");
            let ghost model = view_items(items@);
            let mut i: usize = 0;
            while i < items.len()
                invariant
                    i <= items.len(),
                    *v == BencodedValue::List(*items),
                    model == view_items(items@),
                    out@ == old(out)@ + "["@ + display_items(model.take(i as int)),
                decreases items.len() - i,
            {
                if i > 0 {
                    out.append(", ");
                }
                proof {
                    assert(decreases_to!(*v => v->List_0));
                }
                push_display(&items[i], out);
                proof {
                    let longer = model.take(i + 1);
                    assert(longer.drop_last() =~= model.take(i as int));
                }
                i += 1;
            }
            out.append("]");
            proof {
                assert(model.take(i as int) =~= model);
            }
        },
        BencodedValue::Dict(d) => {
            out.append("{");
            let entries = &d.entries;
            let ghost model = d@;
            let mut i: usize = 0;
            while i < entries.len()
                invariant
                    i <= entries.len(),
                    *v == BencodedValue::Dict(*d),
                    entries == &d.entries,
                    model == view_entries(entries@),
                    out@ == old(out)@ + "{"@ + display_entries(model.take(i as int)),
                decreases entries.len() - i,
            {
                if i > 0 {
                    out.append(", ");
                }
                let entry = &entries[i];
                let key = entry.0.to_string();
                out.append(key.as_str());
                out.append(": ");
                proof {
                    assert(decreases_to!(*v => v->Dict_0));
                }
                push_display(&entry.1, out);
                proof {
                    let longer = model.take(i + 1);
                    assert(longer.drop_last() =~= model.take(i as int));
                }
                i += 1;
            }
            out.append("}");
            proof {
                assert(model.take(i as int) =~= model);
            }
        },
    }
}

impl BencodedValue {
    /// The value written out for people: a byte-string as text, an integer
    /// in decimal, a list as `[a, b]`, a dictionary as `{key: value}`.
    pub fn to_string(&self) -> (s: String)
        ensures
            s@ == display_text(self@),
    {
        let mut s = String::new();
        push_display(self, &mut s);
        s
    }
}

/// Values that have a canonical bencoding.
pub trait Bencodeable {
    /// The bytes that stand for the value.
    spec fn bencoding(&self) -> Seq<u8>;

    /// The canonical bencoding of the value.
    fn bencode(&self) -> (out: Vec<u8>)
        ensures
            out@ == self.bencoding(),
    ;
}

impl Bencodeable for BencodedValue {
    open spec fn bencoding(&self) -> Seq<u8> {
        encode(self@)
    }

    /// The canonical bencoding of the value: a function of the value alone,
    /// with the keys of every dictionary in strictly ascending order.
    fn bencode(&self) -> (out: Vec<u8>)
        ensures
            self@.canonical(),
    {
        let mut out: Vec<u8> = Vec::new();
        encode_value(self, &mut out);
        out
    }
}

} // verus!
