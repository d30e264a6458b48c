use crustdb_core::index::key::{decode_key, encode_key};
use crustdb_core::value::Value;

#[test]
fn int_keys_sort_in_numeric_order() {
    let values = [Value::Int(-2), Value::Int(-1), Value::Int(0), Value::Int(1)];
    let mut encoded: Vec<Vec<u8>> = values.iter().map(encode_key).collect();
    encoded.sort();

    let decoded: Vec<Value> = encoded.iter().map(|key| decode_key(key).unwrap()).collect();

    assert_eq!(decoded, values);
}

#[test]
fn string_keys_sort_lexically() {
    let mut encoded = [
        Value::String("bob".to_string()),
        Value::String("alice".to_string()),
        Value::String("alice2".to_string()),
    ]
    .iter()
    .map(encode_key)
    .collect::<Vec<_>>();
    encoded.sort();

    let decoded = encoded
        .iter()
        .map(|key| decode_key(key).unwrap())
        .collect::<Vec<_>>();

    assert_eq!(
        decoded,
        vec![
            Value::String("alice".to_string()),
            Value::String("alice2".to_string()),
            Value::String("bob".to_string())
        ]
    );
}

#[test]
fn different_value_types_do_not_collide() {
    assert_ne!(
        encode_key(&Value::Int(1)),
        encode_key(&Value::String("1".to_string()))
    );
    assert_ne!(encode_key(&Value::Null), encode_key(&Value::Bool(false)));
}

#[test]
fn int_key_bytes_are_big_endian_with_the_sign_flipped() {
    assert_eq!(encode_key(&Value::Int(0)), vec![1, 0x80, 0, 0, 0, 0, 0, 0, 0]);
    assert_eq!(encode_key(&Value::Int(-1)), vec![1, 0x7f, 0xff, 0xff, 0xff, 0xff, 0xff, 0xff, 0xff]);
    assert_eq!(encode_key(&Value::Int(i64::MIN)), vec![1, 0, 0, 0, 0, 0, 0, 0, 0]);
    assert_eq!(encode_key(&Value::Bool(true)), vec![3, 1]);
    assert_eq!(encode_key(&Value::Null), vec![0]);
    assert_eq!(encode_key(&Value::String("ab".to_string())), vec![2, b'a', b'b']);
}

#[test]
fn extreme_int_keys_sort_and_roundtrip() {
    let values = [Value::Int(i64::MIN), Value::Int(-5), Value::Int(7), Value::Int(i64::MAX)];
    let keys: Vec<Vec<u8>> = values.iter().map(encode_key).collect();
    for pair in keys.windows(2) {
        assert!(pair[0] < pair[1]);
    }
    for (key, value) in keys.iter().zip(values.iter()) {
        assert_eq!(&decode_key(key).unwrap(), value);
    }
}

#[test]
fn malformed_keys_are_refused() {
    for key in [vec![], vec![1, 2, 3], vec![3, 2], vec![9], vec![0, 0], vec![2, 0xff]] {
        let err = decode_key(&key).unwrap_err();
        assert!(err.to_string().starts_with("Storage format error: "));
    }
    let message = |key: &[u8]| decode_key(key).unwrap_err().to_string();
    assert_eq!(message(&[]), "Storage format error: empty index key");
    assert_eq!(message(&[3, 2]), "Storage format error: invalid index bool key: 2");
    assert_eq!(message(&[1, 2, 3]), "Storage format error: invalid index key tag or payload: 1");
    assert_eq!(message(&[9]), "Storage format error: invalid index key tag or payload: 9");
    assert_eq!(message(&[2, 0xff]), "Storage format error: index string key is not UTF-8");
}
