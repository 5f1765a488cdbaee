use bittorrent_starter_rust::decoder::{
    decode_bencoded_value, BencodedDict, BencodedString, BencodedValue, Bencodeable,
};

#[test]
fn test_encode_bencoded_vec() {
    let value = BencodedValue::String(b"hello".to_vec().into());
    assert_eq!(value.bencode(), "5:hello".as_bytes());
}

#[test]
fn test_encode_bencoded_integer() {
    let value = BencodedValue::Integer(3);
    assert_eq!(value.bencode(), "i3e".as_bytes(), "i3e");

    let value = BencodedValue::Integer(-3);
    assert_eq!(value.bencode(), "i-3e".as_bytes(), "i-3e");
}

#[test]
fn test_encode_bencoded_list() {
    let value = BencodedValue::List(vec![
        BencodedValue::String(b"hello".to_vec().into()),
        BencodedValue::Integer(3),
    ]);
    assert_eq!(value.bencode(), "l5:helloi3ee".as_bytes(), "l5:helloi3ee");

    let value = BencodedValue::List(vec![
        BencodedValue::String(b"spam".to_vec().into()),
        BencodedValue::String(b"eggs".to_vec().into()),
    ]);
    assert_eq!(
        value.bencode(),
        "l4:spam4:eggse".as_bytes(),
        "l4:spam4:eggse"
    );

    let value = BencodedValue::List(vec![
        BencodedValue::String(b"spam".to_vec().into()),
        BencodedValue::List(vec![
            BencodedValue::String(b"a".to_vec().into()),
            BencodedValue::String(b"b".to_vec().into()),
        ]),
    ]);
    assert_eq!(
        value.bencode(),
        "l4:spaml1:a1:bee".as_bytes(),
        "l4:spaml1:a1:bee"
    );
}

#[test]
fn test_encode_bencoded_dict() {
    // Test empty dict
    let dict = BencodedDict::new();
    let value = BencodedValue::Dict(dict);
    assert_eq!(value.bencode(), "de".as_bytes());

    // Test {"cow": "moo"}
    let mut dict = BencodedDict::new();
    dict.insert(
        BencodedString(b"cow".to_vec()),
        BencodedValue::String(b"moo".to_vec().into()),
    );
    let value = BencodedValue::Dict(dict);
    assert_eq!(value.bencode(), "d3:cow3:mooe".as_bytes(), "d3:cow3:mooe");

    // Test {"spam": ["a", "b"]}
    let mut dict = BencodedDict::new();
    dict.insert(
        BencodedString(b"spam".to_vec()),
        BencodedValue::List(vec![
            BencodedValue::String(b"a".to_vec().into()),
            BencodedValue::String(b"b".to_vec().into()),
        ]),
    );
    let value = BencodedValue::Dict(dict);
    assert_eq!(
        value.bencode(),
        "d4:spaml1:a1:bee".as_bytes(),
        "d4:spaml1:a1:bee"
    );

    // Test {"food": {"a": "bar"}, "drink": {"b": "baz"}}
    let mut food = BencodedDict::new();
    food.insert(
        BencodedString(b"a".to_vec()),
        BencodedValue::String(b"bar".to_vec().into()),
    );
    let mut drink = BencodedDict::new();
    drink.insert(
        BencodedString(b"b".to_vec()),
        BencodedValue::String(b"baz".to_vec().into()),
    );
    let mut dict = BencodedDict::new();
    dict.insert(BencodedString(b"food".to_vec()), BencodedValue::Dict(food));
    dict.insert(
        BencodedString(b"drink".to_vec()),
        BencodedValue::Dict(drink),
    );
    let value = BencodedValue::Dict(dict);
    let value_bencode_u8 = value.bencode();
    let value_bencode = String::from_utf8_lossy(&value_bencode_u8);
    // Test String
    assert_eq!(
        value_bencode, "d5:drinkd1:b3:baze4:foodd1:a3:baree",
        "d5:drinkd1:b3:baze4:foodd1:a3:baree"
    );
    // Test Bytes
    assert_eq!(
        value.bencode(),
        "d5:drinkd1:b3:baze4:foodd1:a3:baree".as_bytes(),
        "d5:drinkd1:b3:baze4:foodd1:a3:baree"
    );
}

#[test]
fn encoding_orders_keys_whatever_the_insertion_order() {
    let mut forward = BencodedDict::new();
    forward.insert(BencodedString(b"a".to_vec()), BencodedValue::Integer(1));
    forward.insert(BencodedString(b"b".to_vec()), BencodedValue::Integer(2));
    let mut backward = BencodedDict::new();
    backward.insert(BencodedString(b"b".to_vec()), BencodedValue::Integer(2));
    backward.insert(BencodedString(b"a".to_vec()), BencodedValue::Integer(1));
    assert_eq!(BencodedValue::Dict(forward).bencode(), b"d1:ai1e1:bi2ee");
    assert_eq!(BencodedValue::Dict(backward).bencode(), b"d1:ai1e1:bi2ee");
}

#[test]
fn insert_replaces_and_reports_the_old_value() {
    let mut d = BencodedDict::new();
    assert_eq!(d.insert(BencodedString(b"k".to_vec()), BencodedValue::Integer(1)), None);
    assert_eq!(
        d.insert(BencodedString(b"k".to_vec()), BencodedValue::Integer(2)),
        Some(BencodedValue::Integer(1))
    );
    assert_eq!(d.len(), 1);
    assert_eq!(
        d.get(&BencodedString(b"k".to_vec())),
        Some(&BencodedValue::Integer(2))
    );
    assert_eq!(d.get(&BencodedString(b"other".to_vec())), None);
    assert_eq!(BencodedValue::Dict(d).bencode(), b"d1:ki2ee");
}

#[test]
fn encode_integer_limits() {
    assert_eq!(
        BencodedValue::Integer(i64::MIN).bencode(),
        b"i-9223372036854775808e"
    );
    assert_eq!(
        BencodedValue::Integer(i64::MAX).bencode(),
        b"i9223372036854775807e"
    );
    assert_eq!(BencodedValue::Integer(0).bencode(), b"i0e");
    assert_eq!(BencodedValue::Integer(10).bencode(), b"i10e");
}

#[test]
fn canonical_bytes_round_trip() {
    let corpus: Vec<&[u8]> = vec![
        b"5:hello",
        b"0:",
        b"i-42e",
        b"i0e",
        b"le",
        b"de",
        b"l4:spami3ee",
        b"d3:cow3:moo4:spam4:eggse",
        b"d4:spaml1:a1:bee",
        b"d5:drinkd1:b3:baze4:foodd1:a3:baree",
        b"4:\x80\x81\x82\x83",
        b"d8:intervali1800e5:peers12:\x7f\x00\x00\x01\x1a\x90\x7f\x00\x00\x01\x1b\x90e",
        b"ld1:ali1ei2eee0:i-1ee",
    ];
    for bytes in corpus {
        let (consumed, value) = decode_bencoded_value(bytes).unwrap();
        assert_eq!(consumed, bytes.len());
        assert_eq!(value.bencode(), bytes);
    }
}

#[test]
fn dict_reencodes_to_the_same_bytes() {
    let input = b"d3:cow3:moo4:spam4:eggse";
    let (consumed, value) = decode_bencoded_value(input).unwrap();
    assert_eq!(consumed, 24);
    match &value {
        BencodedValue::Dict(d) => {
            let keys: Vec<&[u8]> = d.entries().iter().map(|e| e.0 .0.as_slice()).collect();
            assert_eq!(keys, vec![&b"cow"[..], &b"spam"[..]]);
        }
        other => panic!("not a dictionary: {:?}", other),
    }
    assert_eq!(value.bencode(), input);
}

#[test]
fn reencoding_drops_leading_zeros_of_lengths() {
    let (consumed, value) = decode_bencoded_value(b"l005:helloi7ee").unwrap();
    assert_eq!(consumed, 14);
    assert_eq!(value.bencode(), b"l5:helloi7ee");
    let (again, same) = decode_bencoded_value(&value.bencode()).unwrap();
    assert_eq!(again, 12);
    assert_eq!(same, value);
}

#[test]
fn byte_strings_from_text_and_bytes() {
    assert_eq!(
        BencodedString::from("comt\u{e9}".to_string()),
        BencodedString(vec![b'c', b'o', b'm', b't', 0xc3, 0xa9])
    );
    assert_eq!(
        BencodedString::from(&b"\x00\xff"[..]),
        BencodedString(vec![0x00, 0xff])
    );
    assert_eq!(BencodedString::from(vec![1, 2, 3]).len(), 3);
    assert_eq!(
        BencodedValue::String("5:x".to_string().into()).bencode(),
        b"3:5:x"
    );
}
