// The documents the encoder produces are well-formed JSON: a standard
// reader accepts them and sees the same two keys and text values.

use event_codec::codec::{decode, encode};
use event_codec::record::Record;

fn rec(name: &str, date: &str) -> Record {
    Record { name: name.to_string(), date: date.to_string() }
}

#[test]
fn encoded_document_is_standard_json() {
    let json = encode(&rec("Event 1", "2024-12-12"));
    let value: serde_json::Value = serde_json::from_str(&json).unwrap();
    let obj = value.as_object().unwrap();
    assert_eq!(obj.len(), 2);
    assert_eq!(obj.get("name").unwrap().as_str().unwrap(), "Event 1");
    assert_eq!(obj.get("date").unwrap().as_str().unwrap(), "Date: 2024-12-12");
}

#[test]
fn escapes_agree_with_standard_reader() {
    let name = "a \"quoted\" name\\with\nbreaks\tand\u{8} bells \u{e9}\u{1f389}";
    let json = encode(&rec(name, "d"));
    let value: serde_json::Value = serde_json::from_str(&json).unwrap();
    let obj = value.as_object().unwrap();
    assert_eq!(obj.get("name").unwrap().as_str().unwrap(), name);
    assert_eq!(obj.get("date").unwrap().as_str().unwrap(), "Date: d");
}

#[test]
fn standard_writer_output_decodes() {
    let mut obj = serde_json::Map::new();
    obj.insert(
        "name".to_string(),
        serde_json::Value::String("Event 1".to_string()),
    );
    obj.insert(
        "date".to_string(),
        serde_json::Value::String("Date: 2024-12-12".to_string()),
    );
    let json = serde_json::to_string(&serde_json::Value::Object(obj)).unwrap();
    let out = decode(&json).unwrap();
    assert_eq!(out.name, "Event 1");
    assert_eq!(out.date, "2024-12-12");
}
