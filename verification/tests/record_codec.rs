use crustdb_core::names::NameMap;
use crustdb_core::storage::record::{decode_record, encode_record, Record};
use crustdb_core::value::Value;

fn record_of(pairs: &[(&str, Value)]) -> Record {
    let mut record = NameMap::new();
    for (name, value) in pairs {
        record.insert(name.to_string(), value.clone());
    }
    record
}

#[test]
fn record_encode_decode_roundtrip() {
    let record = record_of(&[
        ("age", Value::Int(25)),
        ("active", Value::Bool(true)),
        ("nickname", Value::Null),
        ("username", Value::String("alice".to_string())),
    ]);

    let encoded = encode_record(&record).unwrap();
    let decoded = decode_record(&encoded).unwrap();

    assert_eq!(decoded, record);
}

#[test]
fn corrupt_record_returns_storage_error() {
    let err = decode_record(&[1, 0, 0, 0, 5]).unwrap_err();

    assert!(err.to_string().contains("Storage format error"));
}

#[test]
fn record_bytes_are_count_then_sorted_fields() {
    let record = record_of(&[("b", Value::Bool(false)), ("a", Value::Int(-1))]);
    let encoded = encode_record(&record).unwrap();
    assert_eq!(
        encoded,
        vec![
            2, 0, 0, 0, // two fields
            1, 0, b'a', 1, 0xff, 0xff, 0xff, 0xff, 0xff, 0xff, 0xff, 0xff, // a = Int(-1)
            1, 0, b'b', 3, 0, // b = Bool(false)
        ]
    );
}

#[test]
fn record_with_trailing_bytes_is_refused() {
    let record = record_of(&[("a", Value::Null)]);
    let mut encoded = encode_record(&record).unwrap();
    encoded.push(0);
    let err = decode_record(&encoded).unwrap_err();
    assert_eq!(err.to_string(), "Storage format error: record has trailing bytes");
}

#[test]
fn later_field_with_the_same_name_wins() {
    // Two fields both named "a": the second value is kept.
    let bytes = vec![2, 0, 0, 0, 1, 0, b'a', 0, 1, 0, b'a', 3, 1];
    let decoded = decode_record(&bytes).unwrap();
    assert_eq!(decoded.len(), 1);
    assert_eq!(decoded.get("a"), Some(&Value::Bool(true)));
}

#[test]
fn invalid_utf8_string_is_refused() {
    let bytes = vec![1, 0, 0, 0, 1, 0, 0xff, 0];
    let err = decode_record(&bytes).unwrap_err();
    assert_eq!(err.to_string(), "Storage format error: string value is not valid UTF-8");
}

#[test]
fn read_errors_name_what_went_wrong() {
    let message = |bytes: &[u8]| decode_record(bytes).unwrap_err().to_string();
    assert_eq!(message(&[1, 0, 0]), "Storage format error: unexpected end of record");
    assert_eq!(message(&[1, 0, 0, 0, 5]), "Storage format error: unexpected end of record");
    assert_eq!(message(&[1, 0, 0, 0, 1, 0, b'a', 9]), "Storage format error: unknown value tag: 9");
    assert_eq!(message(&[1, 0, 0, 0, 1, 0, b'a', 3, 7]), "Storage format error: invalid bool payload: 7");
    assert_eq!(message(&[1, 0, 0, 0, 1, 0, b'a', 1, 0, 0]), "Storage format error: unexpected end of record");
}

#[test]
fn oversized_string_cannot_be_encoded() {
    let long = "x".repeat(70_000);
    let record = record_of(&[("a", Value::String(long))]);
    let err = encode_record(&record).unwrap_err();
    assert!(err.to_string().contains("too large for this storage format"));
    assert_eq!(err.to_string(), "Storage format error: string length is too large for this storage format");
}
