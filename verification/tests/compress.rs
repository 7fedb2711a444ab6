use fluxpack::compress::{compress, compress_with_dict, compress_with_level, decompress, DEFAULT_COMPRESSION_LEVEL};
use fluxpack::encoder::Encoder;
use fluxpack::error::FluxPackError;
use fluxpack::json::{JsonNumber, JsonValue};

fn num(n: i64) -> JsonValue {
    JsonValue::Number(JsonNumber::Int(n))
}

fn float(x: f64) -> JsonValue {
    JsonValue::Number(JsonNumber::Float(x.to_bits()))
}

fn text(s: &str) -> JsonValue {
    JsonValue::String(s.to_string())
}

fn fields(pairs: Vec<(&str, JsonValue)>) -> Vec<(String, JsonValue)> {
    pairs.into_iter().map(|(k, v)| (k.to_string(), v)).collect()
}

fn obj(pairs: Vec<(&str, JsonValue)>) -> JsonValue {
    JsonValue::Object(fields(pairs))
}

/// Equality of JSON values in which object fields compare as a map.
fn jeq(a: &JsonValue, b: &JsonValue) -> bool {
    match (a, b) {
        (JsonValue::Null, JsonValue::Null) => true,
        (JsonValue::Bool(x), JsonValue::Bool(y)) => x == y,
        (JsonValue::Number(x), JsonValue::Number(y)) => x == y,
        (JsonValue::String(x), JsonValue::String(y)) => x == y,
        (JsonValue::Array(x), JsonValue::Array(y)) => {
            x.len() == y.len() && x.iter().zip(y.iter()).all(|(p, q)| jeq(p, q))
        }
        (JsonValue::Object(x), JsonValue::Object(y)) => {
            x.len() == y.len()
                && x.iter().all(|(k, v)| y.iter().any(|(k2, v2)| k == k2 && jeq(v, v2)))
        }
        _ => false,
    }
}

fn to_serde(v: &JsonValue) -> serde_json::Value {
    match v {
        JsonValue::Null => serde_json::Value::Null,
        JsonValue::Bool(b) => serde_json::Value::Bool(*b),
        JsonValue::Number(JsonNumber::Int(i)) => serde_json::Value::from(*i),
        JsonValue::Number(JsonNumber::UInt(u)) => serde_json::Value::from(*u),
        JsonValue::Number(JsonNumber::Float(b)) => serde_json::Value::from(f64::from_bits(*b)),
        JsonValue::String(s) => serde_json::Value::String(s.clone()),
        JsonValue::Array(a) => serde_json::Value::Array(a.iter().map(to_serde).collect()),
        JsonValue::Object(o) => {
            let mut m = serde_json::Map::new();
            for (k, x) in o {
                m.insert(k.clone(), to_serde(x));
            }
            serde_json::Value::Object(m)
        }
    }
}

#[test]
fn test_compress_decompress_roundtrip() {
    let mut encoder = Encoder::new();
    let data = obj(vec![
        ("job_id", text("training_job_001")),
        ("model_type", text("random_forest")),
        (
            "metrics",
            obj(vec![
                ("accuracy", float(0.95)),
                ("precision", float(0.93)),
                ("recall", float(0.97)),
                ("f1_score", float(0.95)),
            ]),
        ),
    ]);

    let fluxpack_bytes = encoder.encode(&data).unwrap().to_vec();
    let compressed = compress(&fluxpack_bytes).unwrap();
    let decompressed = decompress(&compressed).unwrap();

    assert_eq!(fluxpack_bytes, decompressed);
}

#[test]
fn test_compression_ratio() {
    let mut encoder = Encoder::new();
    let row = |e: i64, t: f64, v: f64| obj(vec![("epoch", num(e)), ("train_loss", float(t)), ("val_loss", float(v))]);
    let data = obj(vec![
        ("experiment_id", text("exp_2024_001")),
        ("model", text("transformer_v3")),
        (
            "config",
            obj(vec![
                ("d_model", num(512)),
                ("n_heads", num(8)),
                ("n_layers", num(6)),
                ("lr", float(0.0001)),
                ("warmup_steps", num(4000)),
                ("dropout", float(0.1)),
            ]),
        ),
        (
            "training_history",
            JsonValue::Array(vec![
                row(1, 2.5, 2.4),
                row(2, 1.8, 1.9),
                row(3, 1.2, 1.4),
                row(4, 0.8, 1.0),
                row(5, 0.5, 0.7),
            ]),
        ),
        ("status", text("completed")),
    ]);

    let fluxpack_bytes = encoder.encode(&data).unwrap().to_vec();
    let compressed = compress(&fluxpack_bytes).unwrap();
    let ratio = fluxpack_bytes.len() as f64 / compressed.len() as f64;
    let savings = (1.0 - compressed.len() as f64 / fluxpack_bytes.len() as f64) * 100.0;

    println!("FluxPack: {} bytes", fluxpack_bytes.len());
    println!("Compressed: {} bytes", compressed.len());
    println!("Ratio: {:.2}x, Savings: {:.1}%", ratio, savings);

    assert!(
        compressed.len() < fluxpack_bytes.len(),
        "Compressed ({}) should be smaller than FluxPack ({})",
        compressed.len(),
        fluxpack_bytes.len()
    );
}

#[test]
fn test_compression_levels() {
    let mut encoder = Encoder::new();
    let data = obj(vec![("values", JsonValue::Array((0..1000).map(|i| float(i as f64 * 0.001)).collect()))]);

    let fluxpack_bytes = encoder.encode(&data).unwrap().to_vec();

    let levels = [1, 3, 6, 9];
    let mut prev_size = usize::MAX;

    for &level in &levels {
        let compressed = compress_with_level(&fluxpack_bytes, level).unwrap();
        assert!(
            compressed.len() <= prev_size,
            "Level {} ({}) should be <= level {} ({})",
            level,
            compressed.len(),
            if level == 1 { 0 } else { level - 2 },
            prev_size
        );
        prev_size = compressed.len();
    }
}

#[test]
fn test_total_pipeline_compression() {
    let row = |e: i64, l: f64, a: f64| obj(vec![("epoch", num(e)), ("loss", float(l)), ("acc", float(a))]);
    let data = obj(vec![
        ("job_id", text("training_job_001")),
        ("model_type", text("random_forest")),
        (
            "config",
            obj(vec![
                ("n_estimators", num(100)),
                ("max_depth", num(10)),
                ("learning_rate", float(0.1)),
                ("batch_size", num(32)),
                ("epochs", num(100)),
                ("validation_split", float(0.2)),
                ("random_state", num(42)),
            ]),
        ),
        (
            "metrics",
            obj(vec![
                ("accuracy", float(0.95)),
                ("precision", float(0.93)),
                ("recall", float(0.97)),
                ("f1_score", float(0.95)),
            ]),
        ),
        (
            "training_history",
            JsonValue::Array(vec![
                row(1, 2.5, 0.1),
                row(2, 1.8, 0.3),
                row(3, 1.2, 0.5),
                row(4, 0.8, 0.7),
                row(5, 0.5, 0.85),
            ]),
        ),
    ]);

    let json_bytes = serde_json::to_vec(&to_serde(&data)).unwrap();
    let mut encoder = Encoder::new();
    let fluxpack_bytes = encoder.encode(&data).unwrap().to_vec();
    let compressed = compress(&fluxpack_bytes).unwrap();

    println!("JSON:         {} bytes", json_bytes.len());
    println!(
        "FluxPack:     {} bytes ({:.1}% smaller than JSON)",
        fluxpack_bytes.len(),
        (1.0 - fluxpack_bytes.len() as f64 / json_bytes.len() as f64) * 100.0
    );
    println!(
        "FluxPack+zstd:{} bytes ({:.1}% smaller than JSON)",
        compressed.len(),
        (1.0 - compressed.len() as f64 / json_bytes.len() as f64) * 100.0
    );
    println!("Total compression: {:.2}x", json_bytes.len() as f64 / compressed.len() as f64);

    assert!(
        fluxpack_bytes.len() < json_bytes.len(),
        "FluxPack ({}) should be smaller than JSON ({})",
        fluxpack_bytes.len(),
        json_bytes.len()
    );
    assert!(
        compressed.len() < fluxpack_bytes.len(),
        "Compressed ({}) should be smaller than FluxPack ({})",
        compressed.len(),
        fluxpack_bytes.len()
    );
}

#[test]
fn compress_output_is_not_the_input() {
    let input: Vec<u8> = (0..200u32).map(|i| (i % 7) as u8).collect();
    let c = compress(&input).unwrap();
    assert_ne!(c, input);
    // zstd frames start with their magic number
    assert_eq!(&c[..4], &[0x28, 0xB5, 0x2F, 0xFD]);
    assert_eq!(decompress(&c).unwrap(), input);
    assert_eq!(DEFAULT_COMPRESSION_LEVEL, 3);
    let d = compress_with_dict(&input, b"ignored", 3).unwrap();
    assert_eq!(decompress(&d).unwrap(), input);
}

#[test]
fn decompress_rejects_garbage() {
    match decompress(&[1, 2, 3, 4, 5]) {
        Err(FluxPackError::ColumnarError(m)) => assert!(m.starts_with("zstd decompression failed: ")),
        other => panic!("unexpected {:?}", other),
    }
}
