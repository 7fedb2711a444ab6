use fluxpack::encoder::Encoder;
use fluxpack::error::FluxPackError;
use fluxpack::fast_decoder::FastDecoder;
use fluxpack::inline::encode_inline;
use fluxpack::json::{JsonNumber, JsonValue};

fn num(n: i64) -> JsonValue {
    JsonValue::Number(JsonNumber::Int(n))
}

fn float(x: f64) -> JsonValue {
    JsonValue::Number(JsonNumber::Float(x.to_bits()))
}

fn text(s: &str) -> JsonValue {
    JsonValue::String(s.to_string())
}

fn fields(pairs: Vec<(&str, JsonValue)>) -> Vec<(String, JsonValue)> {
    pairs.into_iter().map(|(k, v)| (k.to_string(), v)).collect()
}

fn obj(pairs: Vec<(&str, JsonValue)>) -> JsonValue {
    JsonValue::Object(fields(pairs))
}

/// Equality of JSON values in which object fields compare as a map.
fn jeq(a: &JsonValue, b: &JsonValue) -> bool {
    match (a, b) {
        (JsonValue::Null, JsonValue::Null) => true,
        (JsonValue::Bool(x), JsonValue::Bool(y)) => x == y,
        (JsonValue::Number(x), JsonValue::Number(y)) => x == y,
        (JsonValue::String(x), JsonValue::String(y)) => x == y,
        (JsonValue::Array(x), JsonValue::Array(y)) => {
            x.len() == y.len() && x.iter().zip(y.iter()).all(|(p, q)| jeq(p, q))
        }
        (JsonValue::Object(x), JsonValue::Object(y)) => {
            x.len() == y.len()
                && x.iter().all(|(k, v)| y.iter().any(|(k2, v2)| k == k2 && jeq(v, v2)))
        }
        _ => false,
    }
}

#[test]
fn fast_decoder_reads_encoder_output() {
    let msg = obj(vec![
        ("name", text("run")),
        ("values", JsonValue::Array(vec![num(1), float(2.5), JsonValue::Null])),
        ("nested", obj(vec![("flag", JsonValue::Bool(true))])),
    ]);
    let mut enc = Encoder::new();
    let bytes = enc.encode(&msg).unwrap().to_vec();
    let mut dec = FastDecoder::new();
    assert!(jeq(&dec.decode(&bytes).unwrap(), &msg));
    // the definitions stay for the next message
    let msg2 = obj(vec![("name", text("second"))]);
    let bytes2 = enc.encode(&msg2).unwrap().to_vec();
    assert!(jeq(&dec.decode(&bytes2).unwrap(), &msg2));
    dec.reset();
    assert!(matches!(dec.decode(&bytes2), Err(FluxPackError::UnknownToken(_))));
}

#[test]
fn fast_decoder_reads_inline_payloads() {
    let fields = fields(vec![("a", num(-3)), ("b", text("x"))]);
    let bytes = encode_inline(&fields);
    let mut dec = FastDecoder::default();
    assert!(jeq(&dec.decode(&bytes).unwrap(), &JsonValue::Object(fields)));
    match dec.decode(&bytes[..bytes.len() - 1]) {
        Err(FluxPackError::ColumnarError(_)) => {}
        other => panic!("unexpected {:?}", other),
    }
}

#[test]
fn fast_decoder_reads_columnar_frames() {
    let rows = JsonValue::Array(vec![
        obj(vec![("u", num(1)), ("v", text("a"))]),
        obj(vec![("u", num(2)), ("v", text("b"))]),
        obj(vec![("u", num(3)), ("v", text("c"))]),
    ]);
    // a columnar frame: the tag, then the columnar bytes
    let mut enc = Encoder::new();
    let wrapped = obj(vec![("rows", rows)]);
    let bytes = enc.encode_with_columnar(&wrapped).unwrap().to_vec();
    let mut dec = FastDecoder::new();
    assert!(jeq(&dec.decode(&bytes).unwrap(), &wrapped));
}

#[test]
fn fast_decoder_errors() {
    let mut dec = FastDecoder::new();
    assert_eq!(dec.decode(&[]).map(|_| ()), Err(FluxPackError::MalformedFrame));
    assert_eq!(dec.decode(&[0xFF]).map(|_| ()), Err(FluxPackError::MalformedFrame));
    assert_eq!(dec.decode(&[0x33]).map(|_| ()), Err(FluxPackError::InvalidValueType(0x33)));
    assert_eq!(dec.decode(&[0x01, 30, 9, b'a']).map(|_| ()), Err(FluxPackError::BufferOverrun));
}

#[test]
fn fast_decoder_reads_common_keys() {
    // the common keys sit under the same tokens as in the encoder: token 1 is "epoch"
    let mut dec = FastDecoder::new();
    let got = dec.decode(&[0x02, 0x01, 0x01, 0x03, 0x02]).unwrap();
    assert!(jeq(&got, &obj(vec![("epoch", num(1))])));
    let msg = obj(vec![("epoch", num(3))]);
    let mut enc = Encoder::new();
    let bytes = enc.encode(&msg).unwrap().to_vec();
    // no DEF frame for a pre-defined key
    assert_eq!(bytes[0], 0x02);
    let mut dec = FastDecoder::new();
    assert!(jeq(&dec.decode(&bytes).unwrap(), &msg));
    let msg = obj(vec![("recall", float(0.5)), ("custom", num(-4))]);
    let bytes = Encoder::new().encode(&msg).unwrap().to_vec();
    assert!(jeq(&FastDecoder::new().decode(&bytes).unwrap(), &msg));
}
