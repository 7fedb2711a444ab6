use fluxpack::decoder::Decoder;
use fluxpack::delta::{decode_delta, encode_delta};
use fluxpack::encoder::Encoder;
use fluxpack::error::FluxPackError;
use fluxpack::json::{clone_json, JsonNumber, JsonValue};
use fluxpack::stream::{Frame, StreamReader, StreamWriter};
use fluxpack::tensor::{decode_tensor, encode_tensor, Tensor};
use fluxpack::zero_copy::decode_zero_copy;

fn num(n: i64) -> JsonValue {
    JsonValue::Number(JsonNumber::Int(n))
}

fn float(x: f64) -> JsonValue {
    JsonValue::Number(JsonNumber::Float(x.to_bits()))
}

fn text(s: &str) -> JsonValue {
    JsonValue::String(s.to_string())
}

fn fields(pairs: Vec<(&str, JsonValue)>) -> Vec<(String, JsonValue)> {
    pairs.into_iter().map(|(k, v)| (k.to_string(), v)).collect()
}

fn obj(pairs: Vec<(&str, JsonValue)>) -> JsonValue {
    JsonValue::Object(fields(pairs))
}

/// Equality of JSON values in which object fields compare as a map.
fn jeq(a: &JsonValue, b: &JsonValue) -> bool {
    match (a, b) {
        (JsonValue::Null, JsonValue::Null) => true,
        (JsonValue::Bool(x), JsonValue::Bool(y)) => x == y,
        (JsonValue::Number(x), JsonValue::Number(y)) => x == y,
        (JsonValue::String(x), JsonValue::String(y)) => x == y,
        (JsonValue::Array(x), JsonValue::Array(y)) => {
            x.len() == y.len() && x.iter().zip(y.iter()).all(|(p, q)| jeq(p, q))
        }
        (JsonValue::Object(x), JsonValue::Object(y)) => {
            x.len() == y.len()
                && x.iter().all(|(k, v)| y.iter().any(|(k2, v2)| k == k2 && jeq(v, v2)))
        }
        _ => false,
    }
}

fn to_serde(v: &JsonValue) -> serde_json::Value {
    match v {
        JsonValue::Null => serde_json::Value::Null,
        JsonValue::Bool(b) => serde_json::Value::Bool(*b),
        JsonValue::Number(JsonNumber::Int(i)) => serde_json::Value::from(*i),
        JsonValue::Number(JsonNumber::UInt(u)) => serde_json::Value::from(*u),
        JsonValue::Number(JsonNumber::Float(b)) => serde_json::Value::from(f64::from_bits(*b)),
        JsonValue::String(s) => serde_json::Value::String(s.clone()),
        JsonValue::Array(a) => serde_json::Value::Array(a.iter().map(to_serde).collect()),
        JsonValue::Object(o) => {
            let mut m = serde_json::Map::new();
            for (k, x) in o {
                m.insert(k.clone(), to_serde(x));
            }
            serde_json::Value::Object(m)
        }
    }
}

fn roundtrip(original: &JsonValue) -> JsonValue {
    let mut encoder = Encoder::new();
    let mut decoder = Decoder::new();
    let encoded = encoder.encode(original).unwrap().to_vec();
    decoder.decode(&encoded).unwrap()
}

#[test]
fn test_encoder_basic() {
    let mut encoder = Encoder::new();
    let msg = obj(vec![
        ("user_id", num(8821)),
        ("email", text("user@example.com")),
        ("active", JsonValue::Bool(true)),
    ]);

    let encoded = encoder.encode(&msg).unwrap();
    assert!(!encoded.is_empty());

    let mut data_frame_start = None;
    for i in 0..encoded.len() {
        if encoded[i] == 0x02 {
            data_frame_start = Some(i);
            break;
        }
    }
    assert!(data_frame_start.is_some(), "DATA frame not found");
}

#[test]
fn test_encoder_decoder_roundtrip() {
    let original = obj(vec![
        ("user_id", num(8821)),
        ("email", text("user@example.com")),
        ("active", JsonValue::Bool(true)),
        ("nested", obj(vec![("field1", text("value1")), ("field2", num(42))])),
        ("list", JsonValue::Array(vec![num(1), num(2), num(3), text("hello")])),
    ]);

    let decoded = roundtrip(&original);
    assert!(jeq(&original, &decoded));
}

#[test]
fn test_roundtrip_negative_numbers() {
    let original = obj(vec![
        ("loss", float(-0.5)),
        ("gradient", num(-42)),
        ("delta", num(-1)),
        ("positive", num(100)),
    ]);

    let decoded = roundtrip(&original);
    assert!(jeq(&original, &decoded));
}

#[test]
fn test_roundtrip_nested_objects() {
    let original = obj(vec![(
        "training",
        obj(vec![
            ("config", obj(vec![("lr", float(0.001)), ("epochs", num(100)), ("batch_size", num(32))])),
            ("metrics", obj(vec![("accuracy", float(0.95)), ("loss", float(0.05))])),
        ]),
    )]);

    let decoded = roundtrip(&original);
    assert!(jeq(&original, &decoded));
}

#[test]
fn test_roundtrip_arrays() {
    let original = obj(vec![
        ("values", JsonValue::Array(vec![num(1), num(2), num(3), num(4), num(5)])),
        ("names", JsonValue::Array(vec![text("a"), text("b"), text("c")])),
        (
            "mixed",
            JsonValue::Array(vec![num(1), text("two"), JsonValue::Bool(true), JsonValue::Null, float(3.14)]),
        ),
    ]);

    let decoded = roundtrip(&original);
    assert!(jeq(&original, &decoded));
}

#[test]
fn test_schema_reuse_skips_defs() {
    let mut encoder = Encoder::new();

    let msg1 = obj(vec![("a", num(1)), ("b", num(2))]);
    let msg2 = obj(vec![("a", num(3)), ("b", num(4))]);

    let encoded1 = encoder.encode(&msg1).unwrap().to_vec();
    let encoded2 = encoder.encode(&msg2).unwrap().to_vec();

    assert!(
        encoded2.len() < encoded1.len(),
        "Second message ({}) should be smaller than first ({})",
        encoded2.len(),
        encoded1.len()
    );
}

#[test]
fn test_batch_encode() {
    let mut encoder = Encoder::new();
    let mut decoder = Decoder::new();

    let messages = vec![
        obj(vec![("x", num(1)), ("y", num(2))]),
        obj(vec![("x", num(3)), ("y", num(4))]),
        obj(vec![("x", num(5)), ("y", num(6))]),
    ];

    let encoded = encoder.encode_batch(&messages).unwrap().to_vec();
    let decoded = decoder.decode_all(&encoded).unwrap();

    assert_eq!(decoded.len(), 3);
    assert!(jeq(&decoded[0], &messages[0]));
    assert!(jeq(&decoded[1], &messages[1]));
    assert!(jeq(&decoded[2], &messages[2]));
}

#[test]
fn lib_test_stream_roundtrip() {
    let messages = vec![
        obj(vec![("epoch", num(1)), ("loss", float(0.5))]),
        obj(vec![("epoch", num(2)), ("loss", float(0.3))]),
        obj(vec![("epoch", num(3)), ("loss", float(0.1))]),
    ];

    let mut writer = StreamWriter::new();
    for msg in &messages {
        writer.write_data(msg).unwrap();
    }
    let bytes = writer.into_buffer();

    let mut reader = StreamReader::new();
    let decoded = reader.read_all(&bytes).unwrap();

    let data_frames: Vec<&JsonValue> = decoded
        .iter()
        .filter_map(|f| match f {
            Frame::Data(v) => Some(v),
            _ => None,
        })
        .collect();

    assert_eq!(data_frames.len(), 3);
    assert!(jeq(data_frames[0], &messages[0]));
    assert!(jeq(data_frames[1], &messages[1]));
    assert!(jeq(data_frames[2], &messages[2]));
}

fn metrics_rows() -> JsonValue {
    obj(vec![(
        "metrics",
        JsonValue::Array(vec![
            obj(vec![("epoch", num(1)), ("loss", float(0.5)), ("acc", float(0.8))]),
            obj(vec![("epoch", num(2)), ("loss", float(0.3)), ("acc", float(0.9))]),
            obj(vec![("epoch", num(3)), ("loss", float(0.1)), ("acc", float(0.95))]),
        ]),
    )])
}

#[test]
fn lib_test_columnar_roundtrip() {
    let mut encoder = Encoder::new();
    let mut decoder = Decoder::new();

    let original = metrics_rows();

    let encoded = encoder.encode_with_columnar(&original).unwrap().to_vec();
    let decoded = decoder.decode(&encoded).unwrap();

    assert!(jeq(&original, &decoded));
}

#[test]
fn test_zigzag_optimal_for_small_negatives() {
    let mut encoder = Encoder::new();

    let msg_small_neg = obj(vec![("val", num(-1))]);
    let msg_large_uint = obj(vec![("val", num(200))]);

    let enc_small = encoder.encode(&msg_small_neg).unwrap().to_vec();
    encoder.reset();
    let enc_large = encoder.encode(&msg_large_uint).unwrap().to_vec();

    assert!(enc_small.len() <= enc_large.len());
}

#[test]
fn test_encode_with_columnar() {
    let mut encoder = Encoder::new();
    let mut decoder = Decoder::new();

    let row = |step: i64, lr: f64, loss: f64| obj(vec![("step", num(step)), ("lr", float(lr)), ("loss", float(loss))]);
    let original = obj(vec![(
        "training_log",
        JsonValue::Array(vec![
            row(0, 0.001, 1.0),
            row(1, 0.001, 0.8),
            row(2, 0.001, 0.6),
            row(3, 0.0005, 0.4),
            row(4, 0.0005, 0.2),
        ]),
    )]);

    let encoded = encoder.encode_with_columnar(&original).unwrap().to_vec();
    let decoded = decoder.decode(&encoded).unwrap();

    assert!(jeq(&original, &decoded));
}

#[test]
fn test_float64_precision() {
    let original = obj(vec![
        ("pi", float(3.141592653589793)),
        ("small", float(1e-10)),
        ("large", float(1e10)),
    ]);

    let decoded = roundtrip(&original);
    assert!(jeq(&original, &decoded));
}

#[test]
fn test_delta_encoding() {
    let values = vec![num(100), num(101), num(103), num(100)];
    let mut buf = Vec::new();
    encode_delta(&values, &mut buf).unwrap();
    let (decoded, _) = decode_delta(&buf).unwrap();
    assert_eq!(decoded.len(), values.len());
    assert!(decoded.iter().zip(values.iter()).all(|(a, b)| jeq(a, b)));
}

#[test]
fn test_tensor_roundtrip() {
    let data: Vec<u32> = [1.0f32, 2.0, 3.0, 4.0, 5.0, 6.0].iter().map(|x| x.to_bits()).collect();
    let tensor = Tensor::from_f32(&data, vec![2, 3]);

    let mut buf = Vec::new();
    encode_tensor(&tensor, &mut buf);

    let (decoded, _) = decode_tensor(&buf).unwrap();
    assert_eq!(decoded.shape, vec![2, 3]);
    assert_eq!(decoded.data, tensor.data);
}

#[test]
fn test_zero_copy() {
    let mut encoder = Encoder::new();
    let original = obj(vec![("key", text("value")), ("count", num(42))]);

    let encoded = encoder.encode(&original).unwrap().to_vec();
    let decoded = decode_zero_copy(&encoded).unwrap();

    assert_eq!(decoded.get("key").unwrap().as_str(), Some("value"));
    assert_eq!(decoded.get("count").unwrap().as_i64(), Some(42));
}

#[test]
fn test_total_pipeline_json_vs_fluxpack() {
    let data = obj(vec![
        ("experiment_id", text("exp_001")),
        ("model", text("transformer_v3")),
        ("config", obj(vec![("d_model", num(512)), ("n_heads", num(8)), ("n_layers", num(6))])),
        ("metrics", obj(vec![("accuracy", float(0.94)), ("f1", float(0.93)), ("loss", float(0.05))])),
        (
            "history",
            JsonValue::Array(vec![
                obj(vec![("epoch", num(1)), ("loss", float(2.5))]),
                obj(vec![("epoch", num(2)), ("loss", float(1.8))]),
                obj(vec![("epoch", num(3)), ("loss", float(1.2))]),
            ]),
        ),
    ]);

    let json_bytes = serde_json::to_vec(&to_serde(&data)).unwrap();
    let mut encoder = Encoder::new();
    let fp_bytes = encoder.encode(&data).unwrap().to_vec();

    println!("JSON: {} bytes", json_bytes.len());
    println!(
        "FluxPack: {} bytes ({:.1}% smaller)",
        fp_bytes.len(),
        (1.0 - fp_bytes.len() as f64 / json_bytes.len() as f64) * 100.0
    );

    assert!(fp_bytes.len() < json_bytes.len());
}

#[test]
fn session_exact_bytes_for_one_field() {
    // Only the new key needs a DEF frame: DEF(21, "a"), then the DATA frame.
    let mut encoder = Encoder::new();
    let out = encoder.encode(&obj(vec![("a", num(1))])).unwrap().to_vec();
    let mut expect: Vec<u8> = Vec::new();
    expect.extend_from_slice(&[0x01, 21, 1, b'a', 0x02]);
    assert_eq!(&out[..expect.len()], &expect[..]);
    let mut decoder = Decoder::new();
    assert!(jeq(&decoder.decode(&out).unwrap(), &obj(vec![("a", num(1))])));
}

#[test]
fn session_rejects_non_object() {
    let mut encoder = Encoder::new();
    assert_eq!(encoder.encode(&num(3)).map(|_| ()), Err(FluxPackError::ExpectedObject));
}

#[test]
fn session_decoder_errors() {
    let mut decoder = Decoder::new();
    assert!(decoder.decode(&[]).is_err());
    // a DATA frame naming a token nobody defined
    let mut encoder = Encoder::new();
    let first = encoder.encode(&obj(vec![("zz", num(1))])).unwrap().to_vec();
    let second = encoder.encode(&obj(vec![("zz", num(2))])).unwrap().to_vec();
    assert!(matches!(decoder.decode(&second), Err(FluxPackError::UnknownToken(_))));
    assert!(jeq(&decoder.decode(&first).unwrap(), &obj(vec![("zz", num(1))])));
    assert!(jeq(&decoder.decode(&second).unwrap(), &obj(vec![("zz", num(2))])));
}

#[test]
fn session_batch_then_decode_keeps_order() {
    let messages: Vec<JsonValue> =
        (0..5).map(|i| obj(vec![("epoch", num(i)), ("name", text(&format!("m{}", i)))])).collect();
    let mut encoder = Encoder::new();
    let encoded = encoder.encode_batch(&messages).unwrap().to_vec();
    let mut decoder = Decoder::new();
    let decoded = decoder.decode_all(&encoded).unwrap();
    assert_eq!(decoded.len(), 5);
    for (a, b) in decoded.iter().zip(messages.iter()) {
        assert!(jeq(a, b));
    }
}

#[test]
fn session_reset_forgets_definitions() {
    let mut encoder = Encoder::new();
    let m = obj(vec![("custom", num(7))]);
    let a = encoder.encode(&m).unwrap().to_vec();
    encoder.reset();
    let b = encoder.encode(&m).unwrap().to_vec();
    assert_eq!(a, b);
    let copy = clone_json(&m);
    assert!(jeq(&copy, &m));
}

#[test]
fn session_failed_batch_keeps_defs_pending() {
    let mut encoder = Encoder::new();
    let batch = vec![obj(vec![("k", num(1))]), num(5)];
    assert_eq!(encoder.encode_batch(&batch).map(|_| ()), Err(FluxPackError::ExpectedObject));
    // the failed batch delivered nothing, so the next message still defines "k"
    let out = encoder.encode(&obj(vec![("k", num(2))])).unwrap().to_vec();
    assert_eq!(&out[..4], &[0x01, 0x15, 0x01, b'k']);
    let mut decoder = Decoder::new();
    assert!(jeq(&decoder.decode(&out).unwrap(), &obj(vec![("k", num(2))])));
}
