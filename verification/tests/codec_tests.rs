use event_codec::codec::{decode, encode};
use event_codec::record::{DecodeError, Field, Record};

fn rec(name: &str, date: &str) -> Record {
    Record { name: name.to_string(), date: date.to_string() }
}

#[test]
fn test_1() {
    let event = Record {
        name: "Event 1".to_string(),
        date: "2024-12-12".to_string(),
    };
    let json = encode(&event);
    let deserialized_event: Record = decode(&json).unwrap();

    assert_eq!(deserialized_event.name, "Event 1");
    assert_eq!(deserialized_event.date, "2024-12-12");
}

#[test]
fn at_rest_format_exact() {
    let json = encode(&rec("Event 1", "2024-12-12"));
    assert_eq!(json, "{\"name\":\"Event 1\",\"date\":\"Date: 2024-12-12\"}");
}

#[test]
fn decode_strips_prefix() {
    let out = decode("{\"name\":\"Event 1\",\"date\":\"Date: 2024-12-12\"}").unwrap();
    assert_eq!(out.name, "Event 1");
    assert_eq!(out.date, "2024-12-12");
}

#[test]
fn missing_date_rejected() {
    let out = decode("{\"name\":\"Event 1\"}");
    assert_eq!(out, Err(DecodeError::MissingField(Field::Date)));
}

#[test]
fn missing_name_rejected() {
    let out = decode("{\"date\":\"Date: 2024-12-12\"}");
    assert_eq!(out, Err(DecodeError::MissingField(Field::Name)));
}

#[test]
fn empty_object_rejected() {
    assert_eq!(decode("{}"), Err(DecodeError::MissingField(Field::Name)));
    assert_eq!(decode(" { } "), Err(DecodeError::MissingField(Field::Name)));
}

#[test]
fn wrong_type_date_rejected() {
    let out = decode("{\"name\":\"Event 1\",\"date\":42}");
    assert_eq!(out, Err(DecodeError::NotText(Field::Date)));
}

#[test]
fn wrong_type_name_rejected() {
    let out = decode("{\"name\":true,\"date\":\"Date: 2024-12-12\"}");
    assert_eq!(out, Err(DecodeError::NotText(Field::Name)));
}

#[test]
fn plain_date_without_prefix_rejected() {
    let out = decode("{\"name\":\"Event 1\",\"date\":\"2024-12-12\"}");
    assert_eq!(out, Err(DecodeError::MissingPrefix));
}

#[test]
fn duplicate_name_rejected() {
    let out = decode("{\"name\":\"a\",\"name\":\"b\",\"date\":\"Date: x\"}");
    assert_eq!(out, Err(DecodeError::DuplicateField(Field::Name)));
}

#[test]
fn duplicate_date_rejected() {
    let out = decode("{\"name\":\"a\",\"date\":\"Date: x\",\"date\":\"Date: y\"}");
    assert_eq!(out, Err(DecodeError::DuplicateField(Field::Date)));
}

#[test]
fn round_trip_plain() {
    let r = rec("Event 1", "2024-12-12");
    let out = decode(&encode(&r)).unwrap();
    assert_eq!(out.name, r.name);
    assert_eq!(out.date, r.date);
}

#[test]
fn round_trip_empty_fields() {
    let r = rec("", "");
    let json = encode(&r);
    assert_eq!(json, "{\"name\":\"\",\"date\":\"Date: \"}");
    let out = decode(&json).unwrap();
    assert_eq!(out.name, "");
    assert_eq!(out.date, "");
}

#[test]
fn round_trip_escaped_characters() {
    let r = rec("a \"quoted\" name\\with\nbreaks\tand\u{8} bells", "12\u{1}/\u{1f}");
    let out = decode(&encode(&r)).unwrap();
    assert_eq!(out.name, r.name);
    assert_eq!(out.date, r.date);
}

#[test]
fn round_trip_non_ascii() {
    let r = rec("caf\u{e9} \u{1f389}", "\u{3053}\u{3093}");
    let out = decode(&encode(&r)).unwrap();
    assert_eq!(out.name, r.name);
    assert_eq!(out.date, r.date);
}

#[test]
fn encode_escapes_exactly() {
    let json = encode(&rec("a\"b\\c\nd", "x"));
    assert_eq!(
        json,
        "{\"name\":\"a\\\"b\\\\c\\u000ad\",\"date\":\"Date: x\"}"
    );
}

#[test]
fn decode_all_escape_forms() {
    let out = decode(
        "{\"name\":\"\\u0041\\\"\\\\\\/\\b\\f\\n\\r\\t\",\"date\":\"Date: \\u00e9\"}",
    )
    .unwrap();
    assert_eq!(out.name, "A\"\\/\u{8}\u{c}\n\r\t");
    assert_eq!(out.date, "\u{e9}");
}

#[test]
fn decode_with_whitespace() {
    let out = decode(" {\n\t\"name\" : \"Event 1\" ,\r\n \"date\" : \"Date: d\" } ").unwrap();
    assert_eq!(out.name, "Event 1");
    assert_eq!(out.date, "d");
}

#[test]
fn decode_any_key_order() {
    let out = decode("{\"date\":\"Date: d\",\"name\":\"n\"}").unwrap();
    assert_eq!(out.name, "n");
    assert_eq!(out.date, "d");
}

#[test]
fn decode_ignores_unknown_keys() {
    let out = decode(
        "{\"id\":17,\"name\":\"n\",\"extra\":\"text\",\"flag\":true,\"nil\":null,\"date\":\"Date: d\",\"num\":-1.5e3}",
    )
    .unwrap();
    assert_eq!(out.name, "n");
    assert_eq!(out.date, "d");
}

#[test]
fn malformed_inputs_rejected() {
    for bad in [
        "",
        "   ",
        "null",
        "[]",
        "{",
        "{\"name\"}",
        "{\"name\":}",
        "{\"name\" \"x\"}",
        "{\"name\":\"a\",}",
        "{\"name\":\"a\"",
        "{\"name\":\"a\"} extra",
        "{\"name\":\"unterminated",
        "{\"name\":\"bad\\q\"}",
        "{\"name\":\"\\uD800\"}",
        "{\"name\":\"\\u12g4\"}",
        "{\"name\":{\"inner\":1},\"date\":\"Date: d\"}",
        "{name:\"a\"}",
    ] {
        assert_eq!(decode(bad), Err(DecodeError::Malformed), "input: {bad:?}");
    }
}

#[test]
fn raw_control_character_rejected() {
    let doc = "{\"name\":\"a\u{1}b\",\"date\":\"Date: d\"}";
    assert_eq!(decode(doc), Err(DecodeError::Malformed));
}

#[test]
fn date_prefix_required_exactly_at_start() {
    // The prefix is anchored: text that merely contains it elsewhere is
    // rejected rather than having the first occurrence removed.
    let out = decode("{\"name\":\"n\",\"date\":\"pre-Date: 2024\"}");
    assert_eq!(out, Err(DecodeError::MissingPrefix));
}

#[test]
fn date_prefix_removed_only_once() {
    let out = decode("{\"name\":\"n\",\"date\":\"Date: Date: d\"}").unwrap();
    assert_eq!(out.date, "Date: d");
}
