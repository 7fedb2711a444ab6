use fluxpack::encoder::Encoder;
use fluxpack::inline::{decode_inline, encode_inline, INLINE_MAGIC};
use fluxpack::json::{JsonNumber, JsonValue};

fn num(n: i64) -> JsonValue {
    JsonValue::Number(JsonNumber::Int(n))
}

fn float(x: f64) -> JsonValue {
    JsonValue::Number(JsonNumber::Float(x.to_bits()))
}

fn text(s: &str) -> JsonValue {
    JsonValue::String(s.to_string())
}

fn fields(pairs: Vec<(&str, JsonValue)>) -> Vec<(String, JsonValue)> {
    pairs.into_iter().map(|(k, v)| (k.to_string(), v)).collect()
}

fn obj(pairs: Vec<(&str, JsonValue)>) -> JsonValue {
    JsonValue::Object(fields(pairs))
}

/// Equality of JSON values in which object fields compare as a map.
fn jeq(a: &JsonValue, b: &JsonValue) -> bool {
    match (a, b) {
        (JsonValue::Null, JsonValue::Null) => true,
        (JsonValue::Bool(x), JsonValue::Bool(y)) => x == y,
        (JsonValue::Number(x), JsonValue::Number(y)) => x == y,
        (JsonValue::String(x), JsonValue::String(y)) => x == y,
        (JsonValue::Array(x), JsonValue::Array(y)) => {
            x.len() == y.len() && x.iter().zip(y.iter()).all(|(p, q)| jeq(p, q))
        }
        (JsonValue::Object(x), JsonValue::Object(y)) => {
            x.len() == y.len()
                && x.iter().all(|(k, v)| y.iter().any(|(k2, v2)| k == k2 && jeq(v, v2)))
        }
        _ => false,
    }
}

fn get<'a>(o: &'a [(String, JsonValue)], key: &str) -> &'a JsonValue {
    &o.iter().find(|(k, _)| k == key).unwrap().1
}

fn as_f64(v: &JsonValue) -> f64 {
    match v {
        JsonValue::Number(JsonNumber::Float(b)) => f64::from_bits(*b),
        JsonValue::Number(JsonNumber::Int(i)) => *i as f64,
        JsonValue::Number(JsonNumber::UInt(u)) => *u as f64,
        _ => panic!("not a number"),
    }
}

fn to_serde(v: &JsonValue) -> serde_json::Value {
    match v {
        JsonValue::Null => serde_json::Value::Null,
        JsonValue::Bool(b) => serde_json::Value::Bool(*b),
        JsonValue::Number(JsonNumber::Int(i)) => serde_json::Value::from(*i),
        JsonValue::Number(JsonNumber::UInt(u)) => serde_json::Value::from(*u),
        JsonValue::Number(JsonNumber::Float(b)) => serde_json::Value::from(f64::from_bits(*b)),
        JsonValue::String(s) => serde_json::Value::String(s.clone()),
        JsonValue::Array(a) => serde_json::Value::Array(a.iter().map(to_serde).collect()),
        JsonValue::Object(o) => {
            let mut m = serde_json::Map::new();
            for (k, x) in o {
                m.insert(k.clone(), to_serde(x));
            }
            serde_json::Value::Object(m)
        }
    }
}

fn user() -> Vec<(String, JsonValue)> {
    fields(vec![
        ("user_id", num(8821)),
        ("email", text("user@example.com")),
        ("active", JsonValue::Bool(true)),
    ])
}

#[test]
fn test_inline_roundtrip() {
    let obj = user();

    let encoded = encode_inline(&obj);
    assert!(!encoded.is_empty());
    assert_eq!(encoded[0], INLINE_MAGIC);

    let (decoded, consumed) = decode_inline(&encoded).unwrap();
    assert_eq!(consumed, encoded.len());
    assert_eq!(obj.len(), decoded.len());
    assert!(jeq(get(&obj, "user_id"), get(&decoded, "user_id")));
    assert!(jeq(get(&obj, "email"), get(&decoded, "email")));
    assert!(jeq(get(&obj, "active"), get(&decoded, "active")));
}

#[test]
fn test_inline_size_comparison() {
    let obj = user();

    let json_bytes = serde_json::to_vec(&to_serde(&JsonValue::Object(fields(vec![
        ("user_id", num(8821)),
        ("email", text("user@example.com")),
        ("active", JsonValue::Bool(true)),
    ]))))
    .unwrap();
    let inline_bytes = encode_inline(&obj);

    println!("JSON: {} bytes", json_bytes.len());
    println!("Inline: {} bytes", inline_bytes.len());

    assert!(
        inline_bytes.len() <= json_bytes.len(),
        "Inline ({}) should be <= JSON ({})",
        inline_bytes.len(),
        json_bytes.len()
    );
}

#[test]
fn test_inline_small_integers() {
    let obj = fields(vec![("a", num(42)), ("b", num(-1)), ("c", num(127)), ("d", num(-128))]);

    let encoded = encode_inline(&obj);
    let (decoded, _) = decode_inline(&encoded).unwrap();

    for k in ["a", "b", "c", "d"] {
        assert!(jeq(get(&obj, k), get(&decoded, k)));
    }
}

#[test]
fn test_inline_boundary_values() {
    let obj = fields(vec![
        ("i8_min", num(-128)),
        ("i8_max", num(127)),
        ("i16_min", num(-32768)),
        ("i16_max", num(32767)),
    ]);

    let encoded = encode_inline(&obj);
    let (decoded, _) = decode_inline(&encoded).unwrap();

    for k in ["i8_min", "i8_max", "i16_min", "i16_max"] {
        assert!(jeq(get(&obj, k), get(&decoded, k)));
    }
}

#[test]
fn test_inline_floats() {
    let obj = fields(vec![("f32_ok", float(3.14)), ("f64_needed", float(3.141592653589793))]);

    let encoded = encode_inline(&obj);
    let (decoded, _) = decode_inline(&encoded).unwrap();

    let f32_val = as_f64(get(&decoded, "f32_ok"));
    assert!((f32_val - 3.14).abs() < 0.01);

    let f64_val = as_f64(get(&decoded, "f64_needed"));
    assert!((f64_val - 3.141592653589793).abs() < 1e-10);
}

#[test]
fn test_inline_strings() {
    let obj = fields(vec![("short", text("hi")), ("long", text("this is a longer string for testing"))]);

    let encoded = encode_inline(&obj);
    let (decoded, _) = decode_inline(&encoded).unwrap();

    assert!(jeq(get(&obj, "short"), get(&decoded, "short")));
    assert!(jeq(get(&obj, "long"), get(&decoded, "long")));
}

#[test]
fn test_inline_ml_payload() {
    let obj = fields(vec![
        ("user_id", num(8821)),
        ("email", text("user@example.com")),
        ("active", JsonValue::Bool(true)),
        ("score", float(0.95)),
    ]);

    let json_bytes = serde_json::to_vec(&to_serde(&JsonValue::Object(fields(vec![
        ("user_id", num(8821)),
        ("email", text("user@example.com")),
        ("active", JsonValue::Bool(true)),
        ("score", float(0.95)),
    ]))))
    .unwrap();
    let inline_bytes = encode_inline(&obj);
    let (decoded, _) = decode_inline(&inline_bytes).unwrap();

    println!("JSON: {} bytes", json_bytes.len());
    println!("Inline: {} bytes", inline_bytes.len());

    assert_eq!(obj.len(), decoded.len());
    assert!(jeq(get(&obj, "user_id"), get(&decoded, "user_id")));
    assert!(jeq(get(&obj, "email"), get(&decoded, "email")));
    assert!(jeq(get(&obj, "active"), get(&decoded, "active")));
}

#[test]
fn test_inline_rejects_large() {
    let mut obj = Vec::new();
    for i in 0..100 {
        obj.push((format!("key_{}", i), num(i)));
    }
    let encoded = encode_inline(&obj);
    assert!(encoded.is_empty(), "Large objects should use standard mode");
}

#[test]
fn inline_exact_bytes() {
    // magic, one field: key "a" then the tiny integer 5
    let obj = fields(vec![("a", num(5))]);
    let encoded = encode_inline(&obj);
    assert_eq!(encoded[0], 0xFE);
    let (decoded, used) = decode_inline(&encoded).unwrap();
    assert_eq!(used, encoded.len());
    assert!(jeq(&JsonValue::Object(decoded), &JsonValue::Object(obj)));
}

#[test]
fn inline_rejects_nested_values() {
    let obj = fields(vec![("a", JsonValue::Array(vec![num(1)]))]);
    assert!(encode_inline(&obj).is_empty());
}

#[test]
fn inline_decode_errors() {
    assert!(decode_inline(&[]).is_err());
    assert!(decode_inline(&[0x00, 0x01]).is_err());
    let obj = user();
    let encoded = encode_inline(&obj);
    assert!(decode_inline(&encoded[..encoded.len() - 1]).is_err());
}

#[test]
fn inline_mode_in_encoder() {
    let mut enc = Encoder::new();
    enc.set_inline_mode(true);
    let msg = JsonValue::Object(user());
    let out = enc.encode(&msg).unwrap().to_vec();
    assert_eq!(out, encode_inline(&user()));
}
