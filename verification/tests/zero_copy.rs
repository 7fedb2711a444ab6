use fluxpack::encoder::Encoder;
use fluxpack::error::FluxPackError;
use fluxpack::json::{JsonNumber, JsonValue};
use fluxpack::zero_copy::{
    decode_all_zero_copy, decode_zero_copy, to_owned, ZeroCopySymbolTable, ZeroCopyValue,
};
use std::collections::HashMap;

fn num(n: i64) -> JsonValue {
    JsonValue::Number(JsonNumber::Int(n))
}

fn float(x: f64) -> JsonValue {
    JsonValue::Number(JsonNumber::Float(x.to_bits()))
}

fn text(s: &str) -> JsonValue {
    JsonValue::String(s.to_string())
}

fn fields(pairs: Vec<(&str, JsonValue)>) -> Vec<(String, JsonValue)> {
    pairs.into_iter().map(|(k, v)| (k.to_string(), v)).collect()
}

fn obj(pairs: Vec<(&str, JsonValue)>) -> JsonValue {
    JsonValue::Object(fields(pairs))
}

/// Equality of JSON values in which object fields compare as a map.
fn jeq(a: &JsonValue, b: &JsonValue) -> bool {
    match (a, b) {
        (JsonValue::Null, JsonValue::Null) => true,
        (JsonValue::Bool(x), JsonValue::Bool(y)) => x == y,
        (JsonValue::Number(x), JsonValue::Number(y)) => x == y,
        (JsonValue::String(x), JsonValue::String(y)) => x == y,
        (JsonValue::Array(x), JsonValue::Array(y)) => {
            x.len() == y.len() && x.iter().zip(y.iter()).all(|(p, q)| jeq(p, q))
        }
        (JsonValue::Object(x), JsonValue::Object(y)) => {
            x.len() == y.len()
                && x.iter().all(|(k, v)| y.iter().any(|(k2, v2)| k == k2 && jeq(v, v2)))
        }
        _ => false,
    }
}

fn as_f64(v: &ZeroCopyValue) -> Option<f64> {
    v.as_f64_bits().map(f64::from_bits)
}

#[test]
fn test_zero_copy_roundtrip() {
    let mut encoder = Encoder::new();
    let original = obj(vec![
        ("user_id", num(8821)),
        ("email", text("user@example.com")),
        ("active", JsonValue::Bool(true)),
        ("score", float(0.95)),
    ]);

    let encoded = encoder.encode(&original).unwrap().to_vec();
    let decoded = decode_zero_copy(&encoded).unwrap();

    let obj = decoded.as_object().unwrap();
    assert_eq!(obj.len(), 4);

    let obj_map: HashMap<&str, &ZeroCopyValue> = obj.iter().map(|(k, v)| (*k, v)).collect();
    assert_eq!(obj_map["user_id"].as_i64(), Some(8821));
    assert_eq!(obj_map["email"].as_str(), Some("user@example.com"));
    assert_eq!(obj_map["active"].as_bool(), Some(true));
    assert_eq!(as_f64(obj_map["score"]), Some(0.95));
}

#[test]
fn test_zero_copy_nested() {
    let mut encoder = Encoder::new();
    let original = obj(vec![
        ("config", obj(vec![("lr", float(0.001)), ("epochs", num(100))])),
        ("values", JsonValue::Array(vec![num(1), num(2), num(3)])),
    ]);

    let encoded = encoder.encode(&original).unwrap().to_vec();
    let decoded = decode_zero_copy(&encoded).unwrap();

    let config = decoded.get("config").unwrap();
    assert!(config.as_object().is_some());
}

#[test]
fn test_zero_copy_batch() {
    let mut encoder = Encoder::new();
    let msg1 = obj(vec![("a", num(1)), ("b", text("hello"))]);
    let msg2 = obj(vec![("a", num(2)), ("b", text("world"))]);

    let enc1 = encoder.encode(&msg1).unwrap().to_vec();
    let enc2 = encoder.encode(&msg2).unwrap().to_vec();

    assert_eq!(enc1[0], 0x01, "First encode should start with DEF frame");
    assert_eq!(enc2[0], 0x02, "Second encode should start with DATA frame");

    let decoded1 = decode_zero_copy(&enc1).unwrap();
    let map1: HashMap<&str, &ZeroCopyValue> = decoded1.as_object().unwrap().iter().map(|(k, v)| (*k, v)).collect();
    assert_eq!(map1["a"].as_i64(), Some(1));
    assert_eq!(map1["b"].as_str(), Some("hello"));

    let mut combined = enc1.clone();
    combined.extend_from_slice(&enc2);
    let decoded_all = decode_all_zero_copy(&combined).unwrap();
    assert_eq!(decoded_all.len(), 2);

    let map_a: HashMap<&str, &ZeroCopyValue> =
        decoded_all[0].as_object().unwrap().iter().map(|(k, v)| (*k, v)).collect();
    assert_eq!(map_a["a"].as_i64(), Some(1));

    let map_b: HashMap<&str, &ZeroCopyValue> =
        decoded_all[1].as_object().unwrap().iter().map(|(k, v)| (*k, v)).collect();
    assert_eq!(map_b["a"].as_i64(), Some(2));
    assert_eq!(map_b["b"].as_str(), Some("world"));
}

#[test]
fn test_zero_copy_to_owned() {
    let mut encoder = Encoder::new();
    let original = obj(vec![("name", text("test")), ("value", num(42))]);

    let encoded = encoder.encode(&original).unwrap().to_vec();
    let zc = decode_zero_copy(&encoded).unwrap();
    let owned = to_owned(&zc);

    assert!(jeq(&owned, &original));
}

#[test]
fn test_zero_copy_string_borrowing() {
    let mut encoder = Encoder::new();
    let original = obj(vec![("key", text("a_relatively_long_string_for_testing"))]);

    let encoded = encoder.encode(&original).unwrap().to_vec();
    let decoded = decode_zero_copy(&encoded).unwrap();

    let key_str = decoded.get("key").unwrap().as_str().unwrap();

    // The string points into the encoded buffer
    let start = encoded.as_ptr() as usize;
    let end = start + encoded.len();
    let key_at = key_str.as_ptr() as usize;
    assert!(key_at >= start && key_at < end, "String should be borrowed from input buffer");
}

#[test]
fn zero_copy_getters_on_other_variants() {
    let mut encoder = Encoder::new();
    let original = obj(vec![
        ("n", JsonValue::Null),
        ("arr", JsonValue::Array(vec![num(-5), JsonValue::Bool(false)])),
        ("f", float(1.5)),
    ]);
    let encoded = encoder.encode(&original).unwrap().to_vec();
    let v = decode_zero_copy(&encoded).unwrap();
    assert!(v.get("missing").is_none());
    let n = v.get("n").unwrap();
    assert!(matches!(n, ZeroCopyValue::Null));
    assert_eq!(n.as_i64(), None);
    assert_eq!(n.as_str(), None);
    let arr = v.get("arr").unwrap().as_array().unwrap();
    assert_eq!(arr.len(), 2);
    assert_eq!(arr[0].as_i64(), Some(-5));
    assert_eq!(arr[1].as_bool(), Some(false));
    assert_eq!(as_f64(v.get("f").unwrap()), Some(1.5));
    assert!(v.as_array().is_none());
    assert!(jeq(&to_owned(&v), &original));
}

#[test]
fn zero_copy_errors() {
    assert!(decode_zero_copy(&[]).is_err());
    // a DEF frame alone carries no message
    assert!(decode_zero_copy(&[0x01, 21, 1, b'a']).is_err());
    let mut encoder = Encoder::new();
    let _ = encoder.encode(&obj(vec![("q", num(1))])).unwrap().to_vec();
    let second = encoder.encode(&obj(vec![("q", num(2))])).unwrap().to_vec();
    assert!(matches!(decode_zero_copy(&second), Err(FluxPackError::UnknownToken(_))));
    assert!(decode_all_zero_copy(&[]).unwrap().is_empty());
}

#[test]
fn zero_copy_symbol_table() {
    let mut table = ZeroCopySymbolTable::new();
    assert_eq!(table.resolve(1), Some("epoch"));
    assert_eq!(table.resolve(21), None);
    let key = String::from("custom");
    table.store_def(21, &key).unwrap();
    assert_eq!(table.resolve(21), Some("custom"));
    let _ = JsonNumber::Int(0);
}

#[test]
fn zero_copy_reads_a_batch() {
    let messages: Vec<JsonValue> = (0..4)
        .map(|i| obj(vec![("step", num(i)), ("tag", text(&format!("t{}", i))), ("v", float(0.25 * i as f64))]))
        .collect();
    let mut encoder = Encoder::new();
    let bytes = encoder.encode_batch(&messages).unwrap().to_vec();
    let all = decode_all_zero_copy(&bytes).unwrap();
    assert_eq!(all.len(), 4);
    for (z, m) in all.iter().zip(messages.iter()) {
        assert!(jeq(&to_owned(z), m));
    }
}
