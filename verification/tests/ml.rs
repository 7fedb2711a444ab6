use fluxpack::error::FluxPackError;
use fluxpack::hyperparams::{decode_hyperparams, encode_hyperparams, Hyperparams};
use fluxpack::json::{JsonNumber, JsonValue};
use fluxpack::ml::{
    decode_feature_vector, decode_sparse_tensor, decode_timestamp, decode_timestamps_deltas,
    encode_feature_vector, encode_sparse_tensor, encode_timestamp, encode_timestamps_deltas,
    shape_stride, sparse_to_dense, FeatureVector, SparseTensor,
};
use fluxpack::tensor::TensorDtype;

fn num(n: i64) -> JsonValue {
    JsonValue::Number(JsonNumber::Int(n))
}

fn float(x: f64) -> JsonValue {
    JsonValue::Number(JsonNumber::Float(x.to_bits()))
}

fn text(s: &str) -> JsonValue {
    JsonValue::String(s.to_string())
}

fn fields(pairs: Vec<(&str, JsonValue)>) -> Vec<(String, JsonValue)> {
    pairs.into_iter().map(|(k, v)| (k.to_string(), v)).collect()
}

fn obj(pairs: Vec<(&str, JsonValue)>) -> JsonValue {
    JsonValue::Object(fields(pairs))
}

/// Equality of JSON values in which object fields compare as a map.
fn jeq(a: &JsonValue, b: &JsonValue) -> bool {
    match (a, b) {
        (JsonValue::Null, JsonValue::Null) => true,
        (JsonValue::Bool(x), JsonValue::Bool(y)) => x == y,
        (JsonValue::Number(x), JsonValue::Number(y)) => x == y,
        (JsonValue::String(x), JsonValue::String(y)) => x == y,
        (JsonValue::Array(x), JsonValue::Array(y)) => {
            x.len() == y.len() && x.iter().zip(y.iter()).all(|(p, q)| jeq(p, q))
        }
        (JsonValue::Object(x), JsonValue::Object(y)) => {
            x.len() == y.len()
                && x.iter().all(|(k, v)| y.iter().any(|(k2, v2)| k == k2 && jeq(v, v2)))
        }
        _ => false,
    }
}

fn bits32(xs: &[f32]) -> Vec<u32> {
    xs.iter().map(|x| x.to_bits()).collect()
}

#[test]
fn test_feature_vector_f32_roundtrip() {
    let fv = FeatureVector::from_f32(&bits32(&[1.0, 2.0, 3.0, 4.0]), vec![2, 2]);
    let mut buf = Vec::new();
    encode_feature_vector(&fv, &mut buf);

    let (decoded, consumed) = decode_feature_vector(&buf).unwrap();
    assert_eq!(consumed, buf.len());
    assert_eq!(decoded.shape, vec![2, 2]);
    assert_eq!(decoded.data, fv.data);
}

#[test]
fn test_sparse_tensor_roundtrip() {
    let dense = [1.0f32, 0.0, 0.0, 2.0, 0.0, 3.0];
    let sparse = SparseTensor::from_dense_f32(&bits32(&dense), vec![6]);

    assert_eq!(sparse.nnz(), 3);
    let sparsity = 1.0 - sparse.nnz() as f64 / sparse.dense_size() as f64;
    assert!(sparsity > 0.4);

    let mut buf = Vec::new();
    encode_sparse_tensor(&sparse, &mut buf);

    let (decoded, consumed) = decode_sparse_tensor(&buf).unwrap();
    assert_eq!(consumed, buf.len());
    assert_eq!(decoded.nnz(), 3);

    let back_to_dense = sparse_to_dense(&decoded);
    assert_eq!(back_to_dense.data.len(), dense.len() * 4);
}

#[test]
fn test_timestamp_deltas() {
    let timestamps = vec![1000u64, 1016, 1032, 1048, 1064];
    let mut buf = Vec::new();
    encode_timestamps_deltas(&timestamps, &mut buf).unwrap();

    let (decoded, consumed) = decode_timestamps_deltas(&buf).unwrap();
    assert_eq!(consumed, buf.len());
    assert_eq!(decoded, timestamps);
}

#[test]
fn test_hyperparams_roundtrip() {
    let params = Hyperparams {
        learning_rate: 0.001f32.to_bits(),
        batch_size: 32,
        epochs: 100,
        optimizer: Some("adam".to_string()),
        custom: vec![("weight_decay".to_string(), float(0.01)), ("warmup_steps".to_string(), num(1000))],
    };

    let mut buf = Vec::new();
    encode_hyperparams(&params, &mut buf);

    let (decoded, consumed) = decode_hyperparams(&buf).unwrap();
    assert_eq!(consumed, buf.len());
    assert!((f32::from_bits(decoded.learning_rate) - 0.001).abs() < 0.0001);
    assert_eq!(decoded.batch_size, 32);
    assert_eq!(decoded.epochs, 100);
    assert_eq!(decoded.optimizer, Some("adam".to_string()));
    assert_eq!(decoded.custom.len(), 2);
}

#[test]
fn test_sparse_tensor_compression() {
    let mut dense = vec![0.0f32; 1000];
    dense[0] = 1.0;
    dense[100] = 2.0;
    dense[500] = 3.0;

    let sparse = SparseTensor::from_dense_f32(&bits32(&dense), vec![1000]);

    let mut buf = Vec::new();
    encode_sparse_tensor(&sparse, &mut buf);

    let json_size = serde_json::to_vec(&dense).unwrap().len();
    let dense_fp_size = 1000 * 4 + 10; // rough estimate
    let sparsity = 1.0 - sparse.nnz() as f64 / sparse.dense_size() as f64;

    println!("Dense JSON: {} bytes", json_size);
    println!("Dense FluxPack: ~{} bytes", dense_fp_size);
    println!("Sparse FluxPack: {} bytes", buf.len());
    println!("Sparsity: {:.1}%", sparsity * 100.0);

    assert!(buf.len() < dense_fp_size);
}

#[test]
fn ml_feature_vector_wire_order() {
    // shape first, then the dtype, then the data
    let fv = FeatureVector::from_i64(&[7], vec![1]);
    let mut buf = Vec::new();
    encode_feature_vector(&fv, &mut buf);
    assert_eq!(buf, vec![1, 1, 0x03, 7, 0, 0, 0, 0, 0, 0, 0]);
    assert_eq!(fv.len(), 1);
    assert!(!fv.is_empty());
    let t = fv.to_tensor();
    assert_eq!(t.dtype, TensorDtype::I64);
    assert!(jeq(&fv.to_json().unwrap(), &JsonValue::Array(vec![num(7)])));
}

#[test]
fn ml_feature_vector_from_json() {
    let fv = FeatureVector::from_json(&[float(0.5), float(1.5)], None).unwrap();
    assert_eq!(fv.dtype, TensorDtype::F64);
    assert_eq!(fv.shape, vec![2]);
    assert!(FeatureVector::from_json(&[], None).is_err());
}

#[test]
fn ml_sparse_to_dense_places_values() {
    let dense = [0.0f32, 5.0, 0.0, -2.0];
    let sparse = SparseTensor::from_dense_f32(&bits32(&dense), vec![4]);
    assert_eq!(sparse.indices, vec![vec![1], vec![3]]);
    assert!(!sparse.is_beneficial());
    let back = sparse_to_dense(&sparse);
    let expect: Vec<u8> = dense.iter().flat_map(|x| x.to_le_bytes()).collect();
    assert_eq!(back.data, expect);

    let very = SparseTensor::from_dense_f32(&bits32(&[0.0, 0.0, 0.0, 1.0]), vec![4]);
    assert!(very.is_beneficial());

    let manual = SparseTensor::from_sparse(TensorDtype::F32, vec![2, 2], vec![vec![1, 0]], 9.0f32.to_le_bytes().to_vec());
    let d = sparse_to_dense(&manual);
    let mut expect = vec![0u8; 16];
    expect[8..12].copy_from_slice(&9.0f32.to_le_bytes());
    assert_eq!(d.data, expect);
    assert_eq!(shape_stride(&[2, 3, 4], 1), 12);
}

#[test]
fn ml_timestamps() {
    let mut buf = Vec::new();
    encode_timestamp(300, &mut buf);
    assert_eq!(buf, vec![0xAC, 0x02]);
    assert_eq!(decode_timestamp(&buf).unwrap(), (300, 2));
    assert_eq!(decode_timestamp(&[0x80]), Err(FluxPackError::BufferOverrun));

    let mut empty = vec![9];
    assert_eq!(
        encode_timestamps_deltas(&[], &mut empty),
        Err(FluxPackError::ColumnarError("empty timestamps".to_string()))
    );
    assert_eq!(empty, vec![9]);

    // going backwards in time is allowed
    let ts = vec![50u64, 40, 45];
    let mut buf = Vec::new();
    encode_timestamps_deltas(&ts, &mut buf).unwrap();
    assert_eq!(decode_timestamps_deltas(&buf).unwrap(), (ts, buf.len()));
}

#[test]
fn ml_hyperparams_without_optimizer() {
    let params = Hyperparams {
        learning_rate: 0.5f32.to_bits(),
        batch_size: 1,
        epochs: 2,
        optimizer: None,
        custom: vec![("flag".to_string(), JsonValue::Bool(false)), ("note".to_string(), text("x"))],
    };
    let mut buf = Vec::new();
    encode_hyperparams(&params, &mut buf);
    let (decoded, used) = decode_hyperparams(&buf).unwrap();
    assert_eq!(used, buf.len());
    assert_eq!(decoded.learning_rate, params.learning_rate);
    assert_eq!(decoded.optimizer, None);
    assert!(jeq(&JsonValue::Object(decoded.custom), &JsonValue::Object(params.custom)));
    assert!(decode_hyperparams(&buf[..3]).is_err());
    let _ = JsonNumber::Int(0);
}

#[test]
fn ml_dense_sparse_dense() {
    let dense = [0.0f32, 1.5, -0.0, 0.0, -2.25, 0.0, 7.0];
    let sparse = SparseTensor::from_dense_f32(&bits32(&dense), vec![dense.len()]);
    assert_eq!(sparse.nnz(), 3);
    let back = sparse_to_dense(&sparse);
    // every non-zero single in its place, zero bytes elsewhere (the negative zero too)
    let expect: Vec<u8> = dense
        .iter()
        .flat_map(|x| if *x != 0.0 { x.to_le_bytes() } else { [0u8; 4] })
        .collect();
    assert_eq!(back.data, expect);
}

#[test]
fn timestamps_with_zero_count_are_empty() {
    assert_eq!(decode_timestamps_deltas(&[0x05, 0x00]).unwrap(), (vec![], 2));
    assert_eq!(decode_timestamps_deltas(&[0x05, 0x01]).unwrap(), (vec![5], 2));
}

#[test]
fn ml_sparse_to_dense_last_index_wins() {
    let mut values = 1.0f32.to_le_bytes().to_vec();
    values.extend_from_slice(&2.0f32.to_le_bytes());
    values.extend_from_slice(&3.0f32.to_le_bytes());
    let s = SparseTensor::from_sparse(TensorDtype::F32, vec![2, 3], vec![vec![0, 2], vec![1, 1], vec![0, 2]], values);
    let d = sparse_to_dense(&s);
    assert_eq!(d.shape, vec![2, 3]);
    let mut expect = vec![0u8; 24];
    expect[8..12].copy_from_slice(&3.0f32.to_le_bytes());
    expect[16..20].copy_from_slice(&2.0f32.to_le_bytes());
    assert_eq!(d.data, expect);
}

#[test]
fn ml_sparse_to_dense_distinct_indices_in_3d() {
    // flat position of [i, j, k] in shape [2, 3, 4] is i * 12 + j * 4 + k
    let mut values = 7.0f32.to_le_bytes().to_vec();
    values.extend_from_slice(&8.0f32.to_le_bytes());
    let s = SparseTensor::from_sparse(TensorDtype::F32, vec![2, 3, 4], vec![vec![1, 2, 3], vec![0, 1, 0]], values);
    let d = sparse_to_dense(&s);
    let mut expect = vec![0u8; 24 * 4];
    expect[23 * 4..24 * 4].copy_from_slice(&7.0f32.to_le_bytes());
    expect[4 * 4..5 * 4].copy_from_slice(&8.0f32.to_le_bytes());
    assert_eq!(d.data, expect);
}
