use fluxpack::error::FluxPackError;
use fluxpack::json::{JsonNumber, JsonValue};
use fluxpack::tensor::{
    decode_header, decode_tensor, encode_tensor, is_tensor_candidate, product, Tensor, TensorDtype,
};

fn num(n: i64) -> JsonValue {
    JsonValue::Number(JsonNumber::Int(n))
}

fn float(x: f64) -> JsonValue {
    JsonValue::Number(JsonNumber::Float(x.to_bits()))
}

fn text(s: &str) -> JsonValue {
    JsonValue::String(s.to_string())
}

fn fields(pairs: Vec<(&str, JsonValue)>) -> Vec<(String, JsonValue)> {
    pairs.into_iter().map(|(k, v)| (k.to_string(), v)).collect()
}

fn obj(pairs: Vec<(&str, JsonValue)>) -> JsonValue {
    JsonValue::Object(fields(pairs))
}

/// Equality of JSON values in which object fields compare as a map.
fn jeq(a: &JsonValue, b: &JsonValue) -> bool {
    match (a, b) {
        (JsonValue::Null, JsonValue::Null) => true,
        (JsonValue::Bool(x), JsonValue::Bool(y)) => x == y,
        (JsonValue::Number(x), JsonValue::Number(y)) => x == y,
        (JsonValue::String(x), JsonValue::String(y)) => x == y,
        (JsonValue::Array(x), JsonValue::Array(y)) => {
            x.len() == y.len() && x.iter().zip(y.iter()).all(|(p, q)| jeq(p, q))
        }
        (JsonValue::Object(x), JsonValue::Object(y)) => {
            x.len() == y.len()
                && x.iter().all(|(k, v)| y.iter().any(|(k2, v2)| k == k2 && jeq(v, v2)))
        }
        _ => false,
    }
}

fn to_serde(v: &JsonValue) -> serde_json::Value {
    match v {
        JsonValue::Null => serde_json::Value::Null,
        JsonValue::Bool(b) => serde_json::Value::Bool(*b),
        JsonValue::Number(JsonNumber::Int(i)) => serde_json::Value::from(*i),
        JsonValue::Number(JsonNumber::UInt(u)) => serde_json::Value::from(*u),
        JsonValue::Number(JsonNumber::Float(b)) => serde_json::Value::from(f64::from_bits(*b)),
        JsonValue::String(s) => serde_json::Value::String(s.clone()),
        JsonValue::Array(a) => serde_json::Value::Array(a.iter().map(to_serde).collect()),
        JsonValue::Object(o) => {
            let mut m = serde_json::Map::new();
            for (k, x) in o {
                m.insert(k.clone(), to_serde(x));
            }
            serde_json::Value::Object(m)
        }
    }
}

fn bits32(xs: &[f32]) -> Vec<u32> {
    xs.iter().map(|x| x.to_bits()).collect()
}

fn bits64(xs: &[f64]) -> Vec<u64> {
    xs.iter().map(|x| x.to_bits()).collect()
}

#[test]
fn test_tensor_f32_roundtrip() {
    let data = bits32(&[1.0, 2.0, 3.0, 4.0, 5.0, 6.0]);
    let tensor = Tensor::from_f32(&data, vec![2, 3]);

    let mut buf = Vec::new();
    encode_tensor(&tensor, &mut buf);

    let (decoded, consumed) = decode_tensor(&buf).unwrap();
    assert_eq!(consumed, buf.len());
    assert_eq!(decoded.dtype, TensorDtype::F32);
    assert_eq!(decoded.shape, vec![2, 3]);
    assert_eq!(decoded.data, tensor.data);
}

#[test]
fn test_tensor_i64_roundtrip() {
    let data = vec![100i64, 200, 300, 400];
    let tensor = Tensor::from_i64(&data, vec![4]);

    let mut buf = Vec::new();
    encode_tensor(&tensor, &mut buf);

    let (decoded, consumed) = decode_tensor(&buf).unwrap();
    assert_eq!(consumed, buf.len());
    assert_eq!(decoded.dtype, TensorDtype::I64);
    assert_eq!(decoded.shape, vec![4]);
}

#[test]
fn test_tensor_from_json() {
    let arr = vec![float(1.0), float(2.0), float(3.0), float(4.0)];
    let tensor = Tensor::from_json_array(&arr, Some(vec![2, 2])).unwrap();

    assert_eq!(tensor.shape, vec![2, 2]);
    assert_eq!(tensor.len(), 4);

    let mut buf = Vec::new();
    encode_tensor(&tensor, &mut buf);

    let (decoded, _) = decode_tensor(&buf).unwrap();
    let back = decoded.to_json().unwrap();
    assert!(jeq(&back, &JsonValue::Array(arr)));
}

#[test]
fn test_tensor_3d() {
    let data: Vec<f64> = (0..24).map(|i| i as f64).collect();
    let tensor = Tensor::from_f64(&bits64(&data), vec![2, 3, 4]);

    let mut buf = Vec::new();
    encode_tensor(&tensor, &mut buf);

    let (decoded, _) = decode_tensor(&buf).unwrap();
    assert_eq!(decoded.shape, vec![2, 3, 4]);
    assert_eq!(decoded.len(), 24);
}

#[test]
fn test_tensor_json_roundtrip() {
    let arr: Vec<JsonValue> = (0..100).map(|i| float(i as f64)).collect();
    let tensor = Tensor::from_json_array(&arr, Some(vec![10, 10])).unwrap();

    let mut buf = Vec::new();
    encode_tensor(&tensor, &mut buf);

    let (decoded, _) = decode_tensor(&buf).unwrap();
    let back = decoded.to_json().unwrap();

    match back {
        JsonValue::Array(vals) => {
            assert_eq!(vals.len(), 100);
            for (i, v) in vals.iter().enumerate() {
                if let JsonValue::Number(JsonNumber::Float(b)) = v {
                    assert_eq!(f64::from_bits(*b), i as f64);
                }
            }
        }
        _ => panic!("Expected array"),
    }
}

#[test]
fn test_tensor_size_comparison() {
    let arr: Vec<JsonValue> = (0..10000).map(|i| float(i as f64 * 12345.6789)).collect();

    let json_size = serde_json::to_vec(&to_serde(&JsonValue::Array(
        arr.iter().map(|v| match v {
            JsonValue::Number(n) => JsonValue::Number(*n),
            _ => JsonValue::Null,
        }).collect(),
    )))
    .unwrap()
    .len();

    let singles: Vec<f32> = arr
        .iter()
        .filter_map(|v| match v {
            JsonValue::Number(JsonNumber::Float(b)) => Some(f64::from_bits(*b) as f32),
            _ => None,
        })
        .collect();
    let tensor = Tensor::from_f32(&bits32(&singles), vec![10000]);
    let mut buf = Vec::new();
    encode_tensor(&tensor, &mut buf);
    let tensor_size = buf.len();

    assert!(
        tensor_size < json_size,
        "Tensor f32 ({}) should be smaller than JSON ({})",
        tensor_size,
        json_size
    );
}

#[test]
fn tensor_exact_bytes() {
    let tensor = Tensor::from_i32(&[1, -1], vec![2]);
    let mut buf = Vec::new();
    encode_tensor(&tensor, &mut buf);
    assert_eq!(buf, vec![0x02, 1, 2, 1, 0, 0, 0, 0xFF, 0xFF, 0xFF, 0xFF]);
    let (dtype, shape, used) = decode_header(&buf).unwrap();
    assert_eq!(dtype, TensorDtype::I32);
    assert_eq!(shape, vec![2]);
    assert_eq!(used, 3);
}

#[test]
fn tensor_from_json_dtypes() {
    let ints = vec![num(1), num(2), num(3)];
    let t = Tensor::from_json_array(&ints, None).unwrap();
    assert_eq!(t.dtype, TensorDtype::I64);
    assert_eq!(t.shape, vec![3]);
    assert!(jeq(&t.to_json().unwrap(), &JsonValue::Array(ints)));

    let mixed = vec![num(1), float(2.5)];
    let t = Tensor::from_json_array(&mixed, None).unwrap();
    assert_eq!(t.dtype, TensorDtype::F32);
    assert!(jeq(&t.to_json().unwrap(), &JsonValue::Array(vec![float(1.0), float(2.5)])));

    let empty: Vec<JsonValue> = Vec::new();
    assert_eq!(
        Tensor::from_json_array(&empty, None).map(|_| ()),
        Err(FluxPackError::ColumnarError("empty tensor".to_string()))
    );
}

#[test]
fn tensor_unknown_dtype() {
    assert_eq!(decode_header(&[0x09, 0]).map(|_| ()), Err(FluxPackError::UnsupportedTensorDtype(9)));
    assert_eq!(TensorDtype::from_tag(0x05), Some(TensorDtype::U64));
    assert_eq!(TensorDtype::U64.element_size(), 8);
    assert_eq!(TensorDtype::I32.element_size(), 4);
}

#[test]
fn tensor_candidates_and_product() {
    let eight: Vec<JsonValue> = (0..8).map(num).collect();
    assert!(is_tensor_candidate(&eight));
    assert!(!is_tensor_candidate(&eight[..7]));
    let mut with_text = eight;
    with_text[3] = text("x");
    assert!(!is_tensor_candidate(&with_text));
    assert_eq!(product(&[2, 3, 4]), 24);
    assert_eq!(product(&[]), 1);
}
