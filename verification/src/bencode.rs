//! The bencode data model and its canonical encoding, as specification.

use vstd::prelude::*;

use crate::ascii::{COLON, DICT, END, INTEGER, LIST};
use crate::decimal::{decimal, signed_decimal};
use crate::lex::{
    lemma_lex_asymmetric, lemma_lex_irreflexive, lemma_lex_total, lemma_lex_transitive, lex_less,
    strictly_ascending,
};
use crate::text::{signed_decimal_text, utf8_lossy};

verus! {

/// A bencoded value, as mathematics sees it.
pub enum Bencode {
    /// A byte-string: any bytes, text or not.
    Bytes(Seq<u8>),
    /// A signed 64-bit integer.
    Int(i64),
    /// An ordered sequence of values.
    List(Seq<Bencode>),
    /// Keys with their values, in the order in which they are encoded.
    Dict(Seq<(Seq<u8>, Bencode)>),
}

/// The keys of a dictionary's entries, in order.
pub open spec fn entry_keys(entries: Seq<(Seq<u8>, Bencode)>) -> Seq<Seq<u8>> {
    Seq::new(entries.len(), |i: int| entries[i].0)
}

impl Bencode {
    /// Whether every dictionary in the value, at any depth, has its keys in
    /// strictly ascending lexicographic order.
    pub open spec fn canonical(self) -> bool
        decreases self,
    {
        match self {
            Bencode::Bytes(_) => true,
            Bencode::Int(_) => true,
            Bencode::List(items) => forall|i: int| 0 <= i < items.len() ==> (#[trigger] items[i]).canonical(),
            Bencode::Dict(entries) => {
                &&& strictly_ascending(entry_keys(entries))
                &&& forall|i: int| 0 <= i < entries.len() ==> (#[trigger] entries[i]).1.canonical()
            },
        }
    }
}

/// The encoding of a byte-string: its length in decimal, a colon, then the
/// bytes themselves, untouched.
pub open spec fn encode_bytes(b: Seq<u8>) -> Seq<u8> {
    decimal(b.len()) + seq![COLON] + b
}

/// The canonical encoding of a value.
pub open spec fn encode(v: Bencode) -> Seq<u8>
    decreases v, 1int,
{
    match v {
        Bencode::Bytes(b) => encode_bytes(b),
        Bencode::Int(i) => seq![INTEGER] + signed_decimal(i as int) + seq![END],
        Bencode::List(items) => seq![LIST] + encode_items(items) + seq![END],
        Bencode::Dict(entries) => seq![DICT] + encode_entries(entries) + seq![END],
    }
}

/// The encodings of a list's items, one after the other.
pub open spec fn encode_items(items: Seq<Bencode>) -> Seq<u8>
    decreases items, 0int,
{
    if items.len() == 0 {
        Seq::empty()
    } else {
        encode(items[0]) + encode_items(items.skip(1))
    }
}

/// The encodings of a dictionary's entries, one after the other: each key as
/// a byte-string, then its value.
pub open spec fn encode_entries(entries: Seq<(Seq<u8>, Bencode)>) -> Seq<u8>
    decreases entries, 0int,
{
    if entries.len() == 0 {
        Seq::empty()
    } else {
        encode_bytes(entries[0].0) + encode(entries[0].1) + encode_entries(entries.skip(1))
    }
}

/// Encoding a list with one more item at its end appends that item's
/// encoding.
pub proof fn lemma_encode_items_push(items: Seq<Bencode>, last: Bencode)
    ensures
        encode_items(items.push(last)) == encode_items(items) + encode(last),
    decreases items.len(),
{
    let all = items.push(last);
    if items.len() == 0 {
        assert(all.skip(1) =~= Seq::<Bencode>::empty());
        assert(encode_items(all.skip(1)) =~= Seq::<u8>::empty());
        assert(encode_items(all) =~= encode(last));
        assert(encode_items(items) + encode(last) =~= encode(last));
    } else {
        assert(all.skip(1) =~= items.skip(1).push(last));
        lemma_encode_items_push(items.skip(1), last);
        assert(encode_items(all) =~= encode_items(items) + encode(last));
    }
}

/// Encoding a dictionary with one more entry at its end appends that entry's
/// encoding.
pub proof fn lemma_encode_entries_push(entries: Seq<(Seq<u8>, Bencode)>, last: (Seq<u8>, Bencode))
    ensures
        encode_entries(entries.push(last)) == encode_entries(entries) + encode_bytes(last.0)
            + encode(last.1),
    decreases entries.len(),
{
    let all = entries.push(last);
    if entries.len() == 0 {
        assert(all.skip(1) =~= Seq::<(Seq<u8>, Bencode)>::empty());
        assert(encode_entries(all.skip(1)) =~= Seq::<u8>::empty());
        assert(encode_entries(all) =~= encode_bytes(last.0) + encode(last.1));
        assert(encode_entries(entries) + encode_bytes(last.0) + encode(last.1) =~= encode_bytes(
            last.0,
        ) + encode(last.1));
    } else {
        assert(all.skip(1) =~= entries.skip(1).push(last));
        lemma_encode_entries_push(entries.skip(1), last);
        assert(encode_entries(all) =~= encode_entries(entries) + encode_bytes(last.0) + encode(
            last.1,
        ));
    }
}

/// The value stored under `key` in a sequence of entries, if any.
pub open spec fn lookup(entries: Seq<(Seq<u8>, Bencode)>, key: Seq<u8>) -> Option<Bencode>
    decreases entries.len(),
{
    if entries.len() == 0 {
        None
    } else if entries[0].0 == key {
        Some(entries[0].1)
    } else {
        lookup(entries.skip(1), key)
    }
}

/// A value written out for people: a byte-string as text, with a
/// replacement character wherever it is not UTF-8; an integer in decimal; a
/// list in square brackets and a dictionary in braces, their parts
/// separated by a comma and a space.
pub open spec fn display_text(v: Bencode) -> Seq<char>
    decreases v, 1int,
{
    match v {
        Bencode::Bytes(b) => utf8_lossy(b),
        Bencode::Int(i) => signed_decimal_text(i as int),
        Bencode::List(items) => "["@ + display_items(items) + "]"@,
        Bencode::Dict(entries) => "{"@ + display_entries(entries) + "}"@,
    }
}

/// The items of a list written out, with `, ` between them.
pub open spec fn display_items(items: Seq<Bencode>) -> Seq<char>
    decreases items, 0int,
{
    if items.len() == 0 {
        Seq::empty()
    } else if items.len() == 1 {
        display_text(items[0])
    } else {
        display_items(items.drop_last()) + ", "@ + display_text(items.last())
    }
}

/// The entries of a dictionary written out as `key: value`, with `, `
/// between them.
pub open spec fn display_entries(entries: Seq<(Seq<u8>, Bencode)>) -> Seq<char>
    decreases entries, 0int,
{
    if entries.len() == 0 {
        Seq::empty()
    } else if entries.len() == 1 {
        utf8_lossy(entries[0].0) + ": "@ + display_text(entries[0].1)
    } else {
        display_entries(entries.drop_last()) + ", "@ + utf8_lossy(entries.last().0) + ": "@
            + display_text(entries.last().1)
    }
}

/// The first entry whose key is `key` is the one that `lookup` finds.
pub proof fn lemma_lookup_first(entries: Seq<(Seq<u8>, Bencode)>, key: Seq<u8>, at: int)
    requires
        0 <= at < entries.len(),
        entries[at].0 == key,
        forall|i: int| 0 <= i < at ==> (#[trigger] entries[i]).0 != key,
    ensures
        lookup(entries, key) == Some(entries[at].1),
    decreases entries.len(),
{
    if at > 0 {
        let rest = entries.skip(1);
        assert(rest[at - 1] == entries[at]);
        assert forall|i: int| 0 <= i < at - 1 implies (#[trigger] rest[i]).0 != key by {
            assert(rest[i] == entries[i + 1]);
        }
        lemma_lookup_first(rest, key, at - 1);
    }
}

/// Where `lookup` finds something, there is an entry with that key and that
/// value; the lemma returns its position.
pub proof fn lemma_lookup_found(entries: Seq<(Seq<u8>, Bencode)>, key: Seq<u8>) -> (at: int)
    requires
        lookup(entries, key) is Some,
    ensures
        0 <= at < entries.len(),
        entries[at].0 == key,
        lookup(entries, key) == Some(entries[at].1),
    decreases entries.len(),
{
    if entries[0].0 == key {
        0
    } else {
        let rest = entries.skip(1);
        let at = lemma_lookup_found(rest, key);
        assert(rest[at] == entries[at + 1]);
        at + 1
    }
}

/// `lookup` finds nothing under a key that no entry has.
pub proof fn lemma_lookup_absent(entries: Seq<(Seq<u8>, Bencode)>, key: Seq<u8>)
    requires
        forall|i: int| 0 <= i < entries.len() ==> (#[trigger] entries[i]).0 != key,
    ensures
        lookup(entries, key) is None,
    decreases entries.len(),
{
    if entries.len() > 0 {
        let rest = entries.skip(1);
        assert forall|i: int| 0 <= i < rest.len() implies (#[trigger] rest[i]).0 != key by {
            assert(rest[i] == entries[i + 1]);
        }
        lemma_lookup_absent(rest, key);
    }
}

/// The entries with `key` bound to `value`: in place of the entry that had
/// the key, or else before the first entry with a greater key.
pub open spec fn insert_entry(entries: Seq<(Seq<u8>, Bencode)>, key: Seq<u8>, value: Bencode) -> Seq<
    (Seq<u8>, Bencode),
>
    decreases entries.len(),
{
    if entries.len() == 0 || lex_less(key, entries[0].0) {
        seq![(key, value)] + entries
    } else if entries[0].0 == key {
        seq![(key, value)] + entries.skip(1)
    } else {
        seq![entries[0]] + insert_entry(entries.skip(1), key, value)
    }
}

/// Where `insert_entry` puts the entry: at the position `at` before which
/// every key is smaller and at which no smaller key stands.
pub proof fn lemma_insert_entry_at(
    entries: Seq<(Seq<u8>, Bencode)>,
    key: Seq<u8>,
    value: Bencode,
    at: int,
)
    requires
        0 <= at <= entries.len(),
        forall|i: int| 0 <= i < at ==> lex_less((#[trigger] entries[i]).0, key),
        at < entries.len() ==> !lex_less(entries[at].0, key),
    ensures
        insert_entry(entries, key, value) == if at < entries.len() && entries[at].0 == key {
            entries.update(at, (key, value))
        } else {
            entries.insert(at, (key, value))
        },
    decreases entries.len(),
{
    if at == 0 {
        if entries.len() > 0 {
            lemma_lex_total(key, entries[0].0);
            lemma_lex_irreflexive(key);
            if entries[0].0 == key {
                assert(seq![(key, value)] + entries.skip(1) =~= entries.update(0, (key, value)));
            } else {
                assert(seq![(key, value)] + entries =~= entries.insert(0, (key, value)));
            }
        } else {
            assert(seq![(key, value)] + entries =~= entries.insert(0, (key, value)));
        }
    } else {
        let rest = entries.skip(1);
        assert(lex_less(entries[0].0, key));
        lemma_lex_asymmetric(entries[0].0, key);
        lemma_lex_irreflexive(key);
        assert forall|i: int| 0 <= i < at - 1 implies lex_less((#[trigger] rest[i]).0, key) by {
            assert(rest[i] == entries[i + 1]);
        }
        if at < entries.len() {
            assert(rest[at - 1] == entries[at]);
        }
        lemma_insert_entry_at(rest, key, value, at - 1);
        if at < entries.len() && entries[at].0 == key {
            assert(seq![entries[0]] + rest.update(at - 1, (key, value)) =~= entries.update(
                at,
                (key, value),
            ));
        } else {
            assert(seq![entries[0]] + rest.insert(at - 1, (key, value)) =~= entries.insert(
                at,
                (key, value),
            ));
        }
    }
}

/// After an insertion the key is bound to the new value, and every other
/// key to what it was bound to before.
pub proof fn lemma_lookup_insert(
    entries: Seq<(Seq<u8>, Bencode)>,
    key: Seq<u8>,
    value: Bencode,
    other: Seq<u8>,
)
    ensures
        lookup(insert_entry(entries, key, value), other) == if other == key {
            Some(value)
        } else {
            lookup(entries, other)
        },
    decreases entries.len(),
{
    let after = insert_entry(entries, key, value);
    if entries.len() == 0 || lex_less(key, entries[0].0) {
        assert(after.skip(1) =~= entries);
    } else if entries[0].0 == key {
        assert(after.skip(1) =~= entries.skip(1));
    } else {
        lemma_lookup_insert(entries.skip(1), key, value, other);
        assert(after.skip(1) =~= insert_entry(entries.skip(1), key, value));
    }
}

/// The number of leading entries whose key comes before `key`: in ascending
/// entries, the place where `key` stands or would stand.
pub open spec fn rank(entries: Seq<(Seq<u8>, Bencode)>, key: Seq<u8>) -> int
    decreases entries.len(),
{
    if entries.len() == 0 || !lex_less(entries[0].0, key) {
        0
    } else {
        1 + rank(entries.skip(1), key)
    }
}

/// Every entry before the rank of `key` has a smaller key, and the entry at
/// the rank, if there is one, has not.
pub proof fn lemma_rank(entries: Seq<(Seq<u8>, Bencode)>, key: Seq<u8>)
    ensures
        0 <= rank(entries, key) <= entries.len(),
        forall|i: int| 0 <= i < rank(entries, key) ==> lex_less((#[trigger] entries[i]).0, key),
        rank(entries, key) < entries.len() ==> !lex_less(entries[rank(entries, key)].0, key),
    decreases entries.len(),
{
    if entries.len() > 0 && lex_less(entries[0].0, key) {
        let rest = entries.skip(1);
        lemma_rank(rest, key);
        assert forall|i: int| 0 <= i < rank(entries, key) implies lex_less(
            (#[trigger] entries[i]).0,
            key,
        ) by {
            if i > 0 {
                assert(entries[i] == rest[i - 1]);
            }
        }
        if rank(entries, key) < entries.len() {
            assert(entries[rank(entries, key)] == rest[rank(rest, key)]);
        }
    }
}

/// Inserting into ascending entries leaves them ascending: no key is ever
/// bound twice.
pub proof fn lemma_insert_ascending(entries: Seq<(Seq<u8>, Bencode)>, key: Seq<u8>, value: Bencode)
    requires
        strictly_ascending(entry_keys(entries)),
    ensures
        strictly_ascending(entry_keys(insert_entry(entries, key, value))),
{
    lemma_rank(entries, key);
    let at = rank(entries, key);
    lemma_insert_entry_at(entries, key, value, at);
    let after = insert_entry(entries, key, value);
    let replaced = at < entries.len() && entries[at].0 == key;
    let shift: int = if replaced {
        1
    } else {
        0
    };
    assert forall|j: int| at + shift <= j < entries.len() implies lex_less(
        key,
        (#[trigger] entries[j]).0,
    ) by {
        lemma_lex_total(entries[at].0, key);
        if j > at {
            assert(lex_less(entry_keys(entries)[at], entry_keys(entries)[j]));
            if !replaced {
                lemma_lex_transitive(key, entries[at].0, entries[j].0);
            }
        }
    }
    assert forall|i: int, j: int| 0 <= i < j < after.len() implies lex_less(
        #[trigger] entry_keys(after)[i],
        #[trigger] entry_keys(after)[j],
    ) by {
        let bi: int = if i < at {
            i
        } else {
            i - 1 + shift
        };
        let bj: int = if j < at {
            j
        } else {
            j - 1 + shift
        };
        if i == at {
            assert(after[j] == entries[bj]);
        } else if j == at {
            assert(after[i] == entries[bi]);
        } else {
            assert(after[i] == entries[bi]);
            assert(after[j] == entries[bj]);
            assert(lex_less(entry_keys(entries)[bi], entry_keys(entries)[bj]));
        }
    }
}

/// Ascending entries are determined by what they bind: two sequences of
/// ascending entries under which every key is bound alike are equal.
pub proof fn lemma_ascending_unique(a: Seq<(Seq<u8>, Bencode)>, b: Seq<(Seq<u8>, Bencode)>)
    requires
        strictly_ascending(entry_keys(a)),
        strictly_ascending(entry_keys(b)),
        forall|key: Seq<u8>| lookup(a, key) == lookup(b, key),
    ensures
        a == b,
    decreases a.len(),
{
    if a.len() == 0 {
        if b.len() > 0 {
            assert(lookup(a, b[0].0) == lookup(b, b[0].0));
        }
        assert(a =~= b);
    } else if b.len() == 0 {
        assert(lookup(a, a[0].0) == lookup(b, a[0].0));
    } else {
        let ka = a[0].0;
        let kb = b[0].0;
        lemma_first_is_least(a, kb);
        lemma_first_is_least(b, ka);
        assert(lookup(a, ka) == lookup(b, ka));
        assert(lookup(a, kb) == lookup(b, kb));
        lemma_lex_total(ka, kb);
        assert(ka == kb);
        let ta = a.skip(1);
        let tb = b.skip(1);
        lemma_tail_ascending(a);
        lemma_tail_ascending(b);
        assert forall|key: Seq<u8>| lookup(ta, key) == lookup(tb, key) by {
            if key == ka {
                lemma_first_is_least(a, ka);
                lemma_first_is_least(b, ka);
                lemma_lex_irreflexive(ka);
            } else {
                assert(lookup(a, key) == lookup(b, key));
            }
        }
        lemma_ascending_unique(ta, tb);
        assert(a =~= seq![a[0]] + ta);
        assert(b =~= seq![b[0]] + tb);
    }
}

/// The entries after the first of ascending entries are ascending.
pub proof fn lemma_tail_ascending(entries: Seq<(Seq<u8>, Bencode)>)
    requires
        entries.len() > 0,
        strictly_ascending(entry_keys(entries)),
    ensures
        strictly_ascending(entry_keys(entries.skip(1))),
{
    let rest = entries.skip(1);
    assert forall|i: int, j: int| 0 <= i < j < rest.len() implies lex_less(
        #[trigger] entry_keys(rest)[i],
        #[trigger] entry_keys(rest)[j],
    ) by {
        assert(lex_less(entry_keys(entries)[i + 1], entry_keys(entries)[j + 1]));
    }
}

/// In ascending entries no key smaller than the first is bound, and the
/// first key is bound nowhere after the first entry.
pub proof fn lemma_first_is_least(entries: Seq<(Seq<u8>, Bencode)>, key: Seq<u8>)
    requires
        entries.len() > 0,
        strictly_ascending(entry_keys(entries)),
    ensures
        lex_less(key, entries[0].0) ==> lookup(entries, key) is None,
        !lex_less(entries[0].0, key) ==> lookup(entries.skip(1), key) is None,
{
    let rest = entries.skip(1);
    lemma_lex_irreflexive(key);
    if !lex_less(entries[0].0, key) {
        assert forall|i: int| 0 <= i < rest.len() implies (#[trigger] rest[i]).0 != key by {
            assert(rest[i] == entries[i + 1]);
            assert(lex_less(entry_keys(entries)[0], entry_keys(entries)[i + 1]));
        }
        lemma_lookup_absent(rest, key);
    }
    if lex_less(key, entries[0].0) {
        lemma_lex_asymmetric(key, entries[0].0);
    }
}

/// A dictionary is the bindings it holds, not the order in which they were
/// made: inserting under two different keys gives the same entries whichever
/// comes first.
pub proof fn lemma_insert_commutes(
    entries: Seq<(Seq<u8>, Bencode)>,
    key1: Seq<u8>,
    value1: Bencode,
    key2: Seq<u8>,
    value2: Bencode,
)
    requires
        strictly_ascending(entry_keys(entries)),
        key1 != key2,
    ensures
        insert_entry(insert_entry(entries, key1, value1), key2, value2) == insert_entry(
            insert_entry(entries, key2, value2),
            key1,
            value1,
        ),
{
    let one = insert_entry(entries, key1, value1);
    let two = insert_entry(entries, key2, value2);
    let one_two = insert_entry(one, key2, value2);
    let two_one = insert_entry(two, key1, value1);
    lemma_insert_ascending(entries, key1, value1);
    lemma_insert_ascending(entries, key2, value2);
    lemma_insert_ascending(one, key2, value2);
    lemma_insert_ascending(two, key1, value1);
    assert forall|key: Seq<u8>| lookup(one_two, key) == lookup(two_one, key) by {
        lemma_lookup_insert(entries, key1, value1, key);
        lemma_lookup_insert(entries, key2, value2, key);
        lemma_lookup_insert(one, key2, value2, key);
        lemma_lookup_insert(two, key1, value1, key);
    }
    lemma_ascending_unique(one_two, two_one);
}

} // verus!
