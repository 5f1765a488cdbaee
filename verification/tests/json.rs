use bittorrent_starter_rust::decoder::{decode_bencoded_value, BencodedString, BencodedValue};
use bittorrent_starter_rust::json::JsonValue;

fn text(s: &str) -> JsonValue {
    JsonValue::String(s.to_string())
}

#[test]
fn ascii_strings_are_text() {
    assert_eq!(BencodedString(b"hello".to_vec()).to_json(), text("hello"));
    assert_eq!(BencodedString(vec![]).to_json(), text(""));
    assert_eq!(BencodedString(vec![0x7f, 0x00]).to_json(), text("\u{7f}\u{0}"));
}

#[test]
fn other_strings_are_arrays_of_bytes() {
    assert_eq!(
        BencodedString(vec![b'a', 0x80, 0xff]).to_json(),
        JsonValue::Array(vec![
            JsonValue::Number(97),
            JsonValue::Number(128),
            JsonValue::Number(255)
        ])
    );
}

#[test]
fn values_as_json() {
    let (_, value) = decode_bencoded_value(b"d3:cowl3:mooi-7ee4:spamd1:a2:\xc3\xa9ee").unwrap();
    assert_eq!(
        value.to_json(),
        JsonValue::Object(vec![
            (
                "cow".to_string(),
                JsonValue::Array(vec![text("moo"), JsonValue::Number(-7)])
            ),
            (
                "spam".to_string(),
                JsonValue::Object(vec![(
                    "a".to_string(),
                    JsonValue::Array(vec![JsonValue::Number(0xc3), JsonValue::Number(0xa9)])
                )])
            ),
        ])
    );
    assert_eq!(BencodedValue::Integer(3).to_json(), JsonValue::Number(3));
    assert_eq!(BencodedValue::List(vec![]).to_json(), JsonValue::Array(vec![]));
}

#[test]
fn keys_that_are_not_text_get_replacement_characters() {
    let (_, value) = decode_bencoded_value(b"d2:\xffai1ee").unwrap();
    assert_eq!(
        value.to_json(),
        JsonValue::Object(vec![("\u{fffd}a".to_string(), JsonValue::Number(1))])
    );
}
