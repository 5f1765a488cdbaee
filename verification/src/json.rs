//! Decoded values as JSON, for showing them to people.

use vstd::prelude::*;

use crate::bencode::Bencode;
use crate::decoder::{view_entries, view_items, BencodedString, BencodedValue};
use crate::text::{ascii_text, lossy_text, push_ascii, utf8_lossy};

verus! {

/// A JSON value, as mathematics sees it.
pub enum Json {
    Text(Seq<char>),
    Number(i64),
    Array(Seq<Json>),
    /// Names with their values, in order. A name may occur more than once;
    /// the last occurrence is the one that counts.
    Object(Seq<(Seq<char>, Json)>),
}

/// A JSON value.
#[derive(Debug, PartialEq, Eq)]
pub enum JsonValue {
    String(String),
    Number(i64),
    Array(Vec<JsonValue>),
    /// Names with their values, in order. A name may occur more than once;
    /// the last occurrence is the one that counts.
    Object(Vec<(String, JsonValue)>),
}

/// What a list of JSON values stands for, item by item.
pub open spec fn view_values(items: Seq<JsonValue>) -> Seq<Json>
    decreases items,
{
    Seq::new(
        items.len(),
        |i: int|
            if 0 <= i < items.len() {
                items[i].view()
            } else {
                arbitrary()
            },
    )
}

/// What a list of members stands for, member by member.
pub open spec fn view_members(members: Seq<(String, JsonValue)>) -> Seq<(Seq<char>, Json)>
    decreases members,
{
    Seq::new(
        members.len(),
        |i: int|
            if 0 <= i < members.len() {
                (members[i].0@, members[i].1.view())
            } else {
                arbitrary()
            },
    )
}

impl View for JsonValue {
    type V = Json;

    open spec fn view(&self) -> Json
        decreases self,
    {
        match self {
            JsonValue::String(s) => Json::Text(s@),
            JsonValue::Number(n) => Json::Number(*n),
            JsonValue::Array(items) => Json::Array(view_values(items@)),
            JsonValue::Object(members) => Json::Object(view_members(members@)),
        }
    }
}

/// Whether every byte is ASCII.
pub open spec fn all_ascii(bytes: Seq<u8>) -> bool {
    forall|i: int| 0 <= i < bytes.len() ==> #[trigger] bytes[i] < 128
}

/// A byte-string as JSON: text if it is ASCII, and else the array of its
/// bytes as numbers.
pub open spec fn json_of_bytes(bytes: Seq<u8>) -> Json {
    if all_ascii(bytes) {
        Json::Text(ascii_text(bytes))
    } else {
        Json::Array(Seq::new(bytes.len(), |i: int| Json::Number(bytes[i] as i64)))
    }
}

/// A decoded value as JSON: an integer as a number, a list as an array, a
/// dictionary as an object whose names are the keys as text, with a
/// replacement character wherever a key is not UTF-8.
pub open spec fn json_of(v: Bencode) -> Json
    decreases v,
{
    match v {
        Bencode::Bytes(bytes) => json_of_bytes(bytes),
        Bencode::Int(i) => Json::Number(i),
        Bencode::List(items) => Json::Array(
            Seq::new(
                items.len(),
                |i: int|
                    if 0 <= i < items.len() {
                        json_of(items[i])
                    } else {
                        arbitrary()
                    },
            ),
        ),
        Bencode::Dict(entries) => Json::Object(
            Seq::new(
                entries.len(),
                |i: int|
                    if 0 <= i < entries.len() {
                        (utf8_lossy(entries[i].0), json_of(entries[i].1))
                    } else {
                        arbitrary()
                    },
            ),
        ),
    }
}

/// Whether every byte is ASCII.
pub fn is_ascii_bytes(bytes: &[u8]) -> (r: bool)
    ensures
        r == all_ascii(bytes@),
{
    let mut i: usize = 0;
    while i < bytes.len()
        invariant
            i <= bytes.len(),
            forall|k: int| 0 <= k < i ==> #[trigger] bytes@[k] < 128,
        decreases bytes.len() - i,
    {
        if bytes[i] >= 128 {
            return false;
        }
        i += 1;
    }
    true
}

impl BencodedString {
    /// The byte-string as JSON: text if it is ASCII, and else the array of
    /// its bytes as numbers.
    pub fn to_json(&self) -> (json: JsonValue)
        ensures
            json@ == json_of_bytes(self@),
    {
        let bytes = self.0.as_slice();
        if is_ascii_bytes(bytes) {
            let mut text = String::new();
            push_ascii(&mut text, bytes);
            JsonValue::String(text)
        } else {
            let mut numbers: Vec<JsonValue> = Vec::new();
            let mut i: usize = 0;
            while i < bytes.len()
                invariant
                    i <= bytes.len(),
                    numbers@.len() == i,
                    forall|k: int|
                        0 <= k < i ==> (#[trigger] numbers@[k])@ == Json::Number(bytes@[k] as i64),
                decreases bytes.len() - i,
            {
                numbers.push(JsonValue::Number(bytes[i] as i64));
                i += 1;
            }
            let json = JsonValue::Array(numbers);
            proof {
                assert(json@->Array_0 =~= json_of_bytes(bytes@)->Array_0);
            }
            json
        }
    }
}

impl BencodedValue {
    /// The value as JSON.
    pub fn to_json(&self) -> (json: JsonValue)
        ensures
            json@ == json_of(self@),
        decreases self,
    {
        match self {
            BencodedValue::String(s) => s.to_json(),
            BencodedValue::Integer(i) => JsonValue::Number(*i),
            BencodedValue::List(items) => {
                let mut values: Vec<JsonValue> = Vec::new();
                let mut i: usize = 0;
                while i < items.len()
                    invariant
                        i <= items.len(),
                        *self == BencodedValue::List(*items),
                        values@.len() == i,
                        forall|k: int|
                            0 <= k < i ==> (#[trigger] values@[k])@ == json_of(items@[k]@),
                    decreases items.len() - i,
                {
                    proof {
                        assert(decreases_to!(*self => self->List_0));
                    }
                    let value = items[i].to_json();
                    values.push(value);
                    i += 1;
                }
                let json = JsonValue::Array(values);
                proof {
                    assert forall|k: int| 0 <= k < items@.len() implies json@->Array_0[k]
                        == json_of(self@)->Array_0[k] by {
                        assert(view_items(items@)[k] == items@[k]@);
                    }
                    assert(json@->Array_0 =~= json_of(self@)->Array_0);
                }
                json
            },
            BencodedValue::Dict(d) => {
                let entries = d.entries();
                let mut members: Vec<(String, JsonValue)> = Vec::new();
                let mut i: usize = 0;
                while i < entries.len()
                    invariant
                        i <= entries.len(),
                        *self == BencodedValue::Dict(*d),
                        view_entries(entries@) == d@,
                        forall|k: int|
                            0 <= k < entries@.len() ==> decreases_to!(*d => (
                            #[trigger] entries@[k]).1),
                        members@.len() == i,
                        forall|k: int|
                            0 <= k < i ==> (#[trigger] members@[k]).0@ == utf8_lossy(
                                entries@[k].0@,
                            ) && members@[k].1@ == json_of(entries@[k].1@),
                    decreases entries.len() - i,
                {
                    let name = lossy_text(entries[i].0.0.as_slice());
                    proof {
                        assert(decreases_to!(*self => self->Dict_0));
                    }
                    let value = entries[i].1.to_json();
                    members.push((name, value));
                    i += 1;
                }
                let json = JsonValue::Object(members);
                proof {
                    assert(json@->Object_0 =~= json_of(self@)->Object_0);
                }
                json
            },
        }
    }
}

} // verus!
