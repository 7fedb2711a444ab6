use fluxpack::delta::{
    decode_delta, delta_encoded_size, encode_delta, original_encoded_size, should_delta_encode,
    signed_varint_size, varint_size,
};
use fluxpack::error::FluxPackError;
use fluxpack::json::{JsonNumber, JsonValue};

fn num(n: i64) -> JsonValue {
    JsonValue::Number(JsonNumber::Int(n))
}

fn float(x: f64) -> JsonValue {
    JsonValue::Number(JsonNumber::Float(x.to_bits()))
}

fn text(s: &str) -> JsonValue {
    JsonValue::String(s.to_string())
}

fn fields(pairs: Vec<(&str, JsonValue)>) -> Vec<(String, JsonValue)> {
    pairs.into_iter().map(|(k, v)| (k.to_string(), v)).collect()
}

fn obj(pairs: Vec<(&str, JsonValue)>) -> JsonValue {
    JsonValue::Object(fields(pairs))
}

/// Equality of JSON values in which object fields compare as a map.
fn jeq(a: &JsonValue, b: &JsonValue) -> bool {
    match (a, b) {
        (JsonValue::Null, JsonValue::Null) => true,
        (JsonValue::Bool(x), JsonValue::Bool(y)) => x == y,
        (JsonValue::Number(x), JsonValue::Number(y)) => x == y,
        (JsonValue::String(x), JsonValue::String(y)) => x == y,
        (JsonValue::Array(x), JsonValue::Array(y)) => {
            x.len() == y.len() && x.iter().zip(y.iter()).all(|(p, q)| jeq(p, q))
        }
        (JsonValue::Object(x), JsonValue::Object(y)) => {
            x.len() == y.len()
                && x.iter().all(|(k, v)| y.iter().any(|(k2, v2)| k == k2 && jeq(v, v2)))
        }
        _ => false,
    }
}

fn jeq_all(a: &[JsonValue], b: &[JsonValue]) -> bool {
    a.len() == b.len() && a.iter().zip(b.iter()).all(|(x, y)| jeq(x, y))
}

#[test]
fn test_delta_roundtrip() {
    let values = vec![num(100), num(101), num(103), num(100), num(98)];

    let mut buf = Vec::new();
    encode_delta(&values, &mut buf).unwrap();

    let (decoded, consumed) = decode_delta(&buf).unwrap();
    assert_eq!(consumed, buf.len());
    assert!(jeq_all(&decoded, &values));
}

#[test]
fn test_delta_negative_numbers() {
    let values = vec![num(-10), num(-8), num(-12), num(-5)];

    let mut buf = Vec::new();
    encode_delta(&values, &mut buf).unwrap();

    let (decoded, consumed) = decode_delta(&buf).unwrap();
    assert_eq!(consumed, buf.len());
    assert!(jeq_all(&decoded, &values));
}

#[test]
fn test_delta_single_element() {
    let values = vec![num(42)];

    let mut buf = Vec::new();
    encode_delta(&values, &mut buf).unwrap();

    let (decoded, _) = decode_delta(&buf).unwrap();
    assert!(jeq_all(&decoded, &values));
}

#[test]
fn test_should_delta_encode() {
    // Close values → should encode
    let close = vec![num(100), num(101), num(103), num(100)];
    assert!(should_delta_encode(&close));

    // Too short → should not
    let short = vec![num(100), num(101)];
    assert!(!should_delta_encode(&short));

    // Spread out values → should not
    let spread = vec![num(1), num(10000), num(2), num(20000)];
    assert!(!should_delta_encode(&spread));
}

#[test]
fn test_delta_compression_ratio() {
    let loss = vec![num(250), num(180), num(120), num(80), num(50), num(30), num(20), num(10)];

    let delta_size = {
        let mut buf = Vec::new();
        encode_delta(&loss, &mut buf).unwrap();
        buf.len()
    };

    let original_size = original_encoded_size(&loss);

    assert!(
        delta_size < original_size,
        "Delta ({}) should be smaller than original ({})",
        delta_size,
        original_size
    );
}

#[test]
fn delta_exact_bytes() {
    // count 3, first 100 (zigzag 200), then +1 and +2 (zigzag 2 and 4)
    let values = vec![num(100), num(101), num(103)];
    let mut buf = vec![0xAA];
    encode_delta(&values, &mut buf).unwrap();
    assert_eq!(buf, vec![0xAA, 3, 0xC8, 0x01, 2, 4]);
    assert_eq!(delta_encoded_size(&values), 5);
}

#[test]
fn delta_skips_non_integers() {
    let values = vec![num(5), text("x"), float(1.5), num(7)];
    let mut buf = Vec::new();
    encode_delta(&values, &mut buf).unwrap();
    let (decoded, used) = decode_delta(&buf).unwrap();
    assert_eq!(used, buf.len());
    assert!(jeq_all(&decoded, &[num(5), num(7)]));
}

#[test]
fn delta_empty_sequence_is_an_error() {
    let values = vec![text("no numbers")];
    let mut buf = vec![1, 2];
    let r = encode_delta(&values, &mut buf);
    assert_eq!(r, Err(FluxPackError::ColumnarError("empty sequence".to_string())));
    assert_eq!(buf, vec![1, 2]);
    assert_eq!(delta_encoded_size(&values), 0);
}

#[test]
fn delta_truncated_input() {
    assert_eq!(decode_delta(&[]).map(|_| ()), Err(FluxPackError::BufferOverrun));
    assert_eq!(decode_delta(&[2, 4]).map(|_| ()), Err(FluxPackError::BufferOverrun));
}

#[test]
fn delta_should_encode_rejects_non_integers() {
    let values = vec![num(1), num(2), float(2.5), num(3)];
    assert!(!should_delta_encode(&values));
}

#[test]
fn delta_varint_sizes() {
    assert_eq!(varint_size(0), 1);
    assert_eq!(varint_size(127), 1);
    assert_eq!(varint_size(128), 2);
    assert_eq!(varint_size(u64::MAX), 10);
    assert_eq!(signed_varint_size(-1), 1);
    assert_eq!(signed_varint_size(64), 2);
    assert_eq!(signed_varint_size(-64), 1);
}

#[test]
fn should_delta_encode_short_lists() {
    // fewer than four values: no deltas are looked at
    assert!(!should_delta_encode(&[num(i64::MIN), num(i64::MAX)]));
    assert!(!should_delta_encode(&[]));
}
