use fluxpack::columnar::{decode_columnar, encode_columnar, reconstruct_array, try_columnarize, ColType};
use fluxpack::error::FluxPackError;
use fluxpack::json::{JsonNumber, JsonValue};

fn num(n: i64) -> JsonValue {
    JsonValue::Number(JsonNumber::Int(n))
}

fn float(x: f64) -> JsonValue {
    JsonValue::Number(JsonNumber::Float(x.to_bits()))
}

fn text(s: &str) -> JsonValue {
    JsonValue::String(s.to_string())
}

fn obj(fields: Vec<(&str, JsonValue)>) -> JsonValue {
    JsonValue::Object(fields.into_iter().map(|(k, v)| (k.to_string(), v)).collect())
}

/// Equality of JSON values in which object fields compare as a map.
fn jeq(a: &JsonValue, b: &JsonValue) -> bool {
    match (a, b) {
        (JsonValue::Null, JsonValue::Null) => true,
        (JsonValue::Bool(x), JsonValue::Bool(y)) => x == y,
        (JsonValue::Number(x), JsonValue::Number(y)) => x == y,
        (JsonValue::String(x), JsonValue::String(y)) => x == y,
        (JsonValue::Array(x), JsonValue::Array(y)) => {
            x.len() == y.len() && x.iter().zip(y.iter()).all(|(p, q)| jeq(p, q))
        }
        (JsonValue::Object(x), JsonValue::Object(y)) => {
            x.len() == y.len()
                && x.iter().all(|(k, v)| y.iter().any(|(k2, v2)| k == k2 && jeq(v, v2)))
        }
        _ => false,
    }
}

#[test]
fn test_columnarize_simple() {
    let arr = vec![
        obj(vec![("a", num(1)), ("b", num(2))]),
        obj(vec![("a", num(3)), ("b", num(4))]),
        obj(vec![("a", num(5)), ("b", num(6))]),
    ];
    let columns = try_columnarize(&arr).unwrap();
    assert_eq!(columns.len(), 2);
}

#[test]
fn columnar_test_columnar_roundtrip() {
    let arr = vec![
        obj(vec![("x", num(10)), ("y", float(20.5)), ("name", text("foo"))]),
        obj(vec![("x", num(30)), ("y", float(40.5)), ("name", text("bar"))]),
        obj(vec![("x", num(50)), ("y", float(60.5)), ("name", text("baz"))]),
    ];

    let columns = try_columnarize(&arr).unwrap();
    let mut buf = Vec::new();
    encode_columnar(&arr, &columns, &mut buf);

    let (row_count, decoded_cols, consumed) = decode_columnar(&buf).unwrap();
    assert_eq!(consumed, buf.len());
    assert_eq!(row_count, 3);

    let result = reconstruct_array(row_count, decoded_cols);
    assert!(jeq(&result, &JsonValue::Array(arr)));
}

#[test]
fn test_columnar_bool_packing() {
    let arr = vec![
        obj(vec![("flag", JsonValue::Bool(true))]),
        obj(vec![("flag", JsonValue::Bool(false))]),
        obj(vec![("flag", JsonValue::Bool(true))]),
        obj(vec![("flag", JsonValue::Bool(true))]),
        obj(vec![("flag", JsonValue::Bool(false))]),
    ];

    let columns = try_columnarize(&arr).unwrap();
    assert_eq!(columns[0].1, ColType::Bool);

    let mut buf = Vec::new();
    encode_columnar(&arr, &columns, &mut buf);

    let (_, decoded_cols, _) = decode_columnar(&buf).unwrap();
    assert_eq!(decoded_cols[0].values.len(), 5);
    assert!(jeq(&decoded_cols[0].values[0], &JsonValue::Bool(true)));
    assert!(jeq(&decoded_cols[0].values[1], &JsonValue::Bool(false)));
}

#[test]
fn test_columnar_rejects_heterogeneous() {
    let arr = vec![obj(vec![("a", num(1)), ("b", text("hello"))]), obj(vec![("a", num(2))])];
    assert!(try_columnarize(&arr).is_none());
}

#[test]
fn test_columnar_rejects_short_array() {
    let arr = vec![obj(vec![("a", num(1))]), obj(vec![("a", num(2))])];
    assert!(try_columnarize(&arr).is_none());
}

#[test]
fn test_columnar_null_handling() {
    let arr = vec![
        obj(vec![("val", num(1))]),
        obj(vec![("val", JsonValue::Null)]),
        obj(vec![("val", num(3))]),
    ];
    let columns = try_columnarize(&arr).unwrap();
    // Mixed int + null → Float64
    assert_eq!(columns[0].1, ColType::Float64);
}

#[test]
fn columnar_column_types_inferred() {
    let arr = vec![
        obj(vec![("i", num(-1)), ("s", text("a")), ("n", JsonValue::Null), ("m", num(1))]),
        obj(vec![("i", num(-2)), ("s", text("b")), ("n", JsonValue::Null), ("m", text("x"))]),
        obj(vec![("i", num(-3)), ("s", text("c")), ("n", JsonValue::Null), ("m", JsonValue::Bool(true))]),
    ];
    let columns = try_columnarize(&arr).unwrap();
    // negative integers only: a signed column
    assert_eq!(columns[0], ("i".to_string(), ColType::Int));
    assert_eq!(columns[1], ("s".to_string(), ColType::String));
    assert_eq!(columns[2], ("n".to_string(), ColType::Null));
    assert_eq!(columns[3], ("m".to_string(), ColType::Mixed));

    let mut buf = Vec::new();
    encode_columnar(&arr, &columns, &mut buf);
    let (rows, cols, used) = decode_columnar(&buf).unwrap();
    assert_eq!(used, buf.len());
    assert!(jeq(&reconstruct_array(rows, cols), &JsonValue::Array(arr)));
}

#[test]
fn columnar_signs_and_floats() {
    let arr = vec![
        obj(vec![("u", num(1)), ("m", num(-1)), ("f", float(0.25))]),
        obj(vec![("u", num(2)), ("m", num(2)), ("f", float(0.5))]),
        obj(vec![("u", num(3)), ("m", num(3)), ("f", float(0.1))]),
    ];
    let columns = try_columnarize(&arr).unwrap();
    assert_eq!(columns[0].1, ColType::UInt);
    // signed and unsigned integers together: doubles
    assert_eq!(columns[1].1, ColType::Float64);
    let mut buf = Vec::new();
    encode_columnar(&arr, &columns, &mut buf);
    let (rows, cols, _) = decode_columnar(&buf).unwrap();
    let back = reconstruct_array(rows, cols);
    let expect = JsonValue::Array(vec![
        obj(vec![("u", num(1)), ("m", float(-1.0)), ("f", float(0.25))]),
        obj(vec![("u", num(2)), ("m", float(2.0)), ("f", float(0.5))]),
        obj(vec![("u", num(3)), ("m", float(3.0)), ("f", float(0.1))]),
    ]);
    assert!(jeq(&back, &expect));
}

#[test]
fn columnar_rejects_non_objects() {
    let arr = vec![num(1), num(2), num(3)];
    assert!(try_columnarize(&arr).is_none());
}

#[test]
fn columnar_tag_roundtrip() {
    for t in [
        ColType::Null,
        ColType::Bool,
        ColType::Int,
        ColType::UInt,
        ColType::Float64,
        ColType::Float32,
        ColType::String,
        ColType::Mixed,
    ] {
        assert_eq!(ColType::from_tag(t.tag()), Some(t));
    }
    assert_eq!(ColType::Mixed.tag(), 0xFF);
    assert_eq!(ColType::from_tag(0x42), None);
}

#[test]
fn columnar_truncated_input_fails() {
    let arr = vec![
        obj(vec![("a", num(1))]),
        obj(vec![("a", num(2))]),
        obj(vec![("a", num(3))]),
    ];
    let columns = try_columnarize(&arr).unwrap();
    let mut buf = Vec::new();
    encode_columnar(&arr, &columns, &mut buf);
    let short = &buf[..buf.len() - 1];
    assert!(decode_columnar(short).is_err());
    assert_eq!(decode_columnar(&[]).map(|_| ()), Err(FluxPackError::BufferOverrun));
}
