use fluxpack::decoder::Decoder;
use fluxpack::encoder::Encoder;
use fluxpack::error::FluxPackError;
use fluxpack::json::{JsonNumber, JsonValue};
use fluxpack::parallel::{
    assemble_batch, decode_batch_parallel, encode_message_data, intern_nested, prebuild_symbol_table,
};
use fluxpack::symbol_table::SymbolTable;
use rayon::iter::{IntoParallelRefIterator, ParallelIterator};

fn num(n: i64) -> JsonValue {
    JsonValue::Number(JsonNumber::Int(n))
}

fn float(x: f64) -> JsonValue {
    JsonValue::Number(JsonNumber::Float(x.to_bits()))
}

fn text(s: &str) -> JsonValue {
    JsonValue::String(s.to_string())
}

fn fields(pairs: Vec<(&str, JsonValue)>) -> Vec<(String, JsonValue)> {
    pairs.into_iter().map(|(k, v)| (k.to_string(), v)).collect()
}

fn obj(pairs: Vec<(&str, JsonValue)>) -> JsonValue {
    JsonValue::Object(fields(pairs))
}

/// Equality of JSON values in which object fields compare as a map.
fn jeq(a: &JsonValue, b: &JsonValue) -> bool {
    match (a, b) {
        (JsonValue::Null, JsonValue::Null) => true,
        (JsonValue::Bool(x), JsonValue::Bool(y)) => x == y,
        (JsonValue::Number(x), JsonValue::Number(y)) => x == y,
        (JsonValue::String(x), JsonValue::String(y)) => x == y,
        (JsonValue::Array(x), JsonValue::Array(y)) => {
            x.len() == y.len() && x.iter().zip(y.iter()).all(|(p, q)| jeq(p, q))
        }
        (JsonValue::Object(x), JsonValue::Object(y)) => {
            x.len() == y.len()
                && x.iter().all(|(k, v)| y.iter().any(|(k2, v2)| k == k2 && jeq(v, v2)))
        }
        _ => false,
    }
}

/// The table of every key first, then each message's DATA frame on its own thread.
fn encode_batch_parallel(messages: &[JsonValue]) -> Result<Vec<u8>, FluxPackError> {
    if messages.is_empty() {
        return Ok(Vec::new());
    }
    let table = prebuild_symbol_table(messages)?;
    let parts: Result<Vec<Vec<u8>>, FluxPackError> =
        messages.par_iter().map(|m| encode_message_data(&table, m)).collect();
    Ok(assemble_batch(&table, &parts?))
}

#[test]
fn test_parallel_batch_roundtrip() {
    let messages: Vec<JsonValue> = (0..20)
        .map(|i| {
            obj(vec![
                ("id", num(i)),
                ("name", text(&format!("item_{}", i))),
                ("value", float(i as f64 * 1.5)),
                ("active", JsonValue::Bool(i % 2 == 0)),
            ])
        })
        .collect();

    let encoded = encode_batch_parallel(&messages).unwrap();
    let decoded = decode_batch_parallel(&encoded).unwrap();

    assert_eq!(decoded.len(), 20);
    for (i, msg) in decoded.iter().enumerate() {
        match msg {
            JsonValue::Object(o) => {
                let id = &o.iter().find(|(k, _)| k == "id").unwrap().1;
                assert!(jeq(id, &num(i as i64)));
            }
            _ => panic!("expected an object"),
        }
    }
}

#[test]
fn test_prebuild_symbol_table() {
    let messages = vec![obj(vec![("a", num(1)), ("b", num(2))]), obj(vec![("a", num(3)), ("b", num(4)), ("c", num(5))])];

    let table = prebuild_symbol_table(&messages).unwrap();
    assert!(table.contains_key("a"));
    assert!(table.contains_key("b"));
    assert!(table.contains_key("c"));
}

#[test]
fn test_parallel_output_matches_sequential() {
    let messages: Vec<JsonValue> = (0..10)
        .map(|i| {
            obj(vec![
                ("epoch", num(i)),
                ("loss", float(2.5 - (i as f64 * 0.05))),
                ("accuracy", float(0.5 + (i as f64 * 0.01))),
            ])
        })
        .collect();

    let parallel = encode_batch_parallel(&messages).unwrap();
    let mut sequential_encoder = Encoder::new();
    let sequential = sequential_encoder.encode_batch(&messages).unwrap().to_vec();

    let decoded_p = decode_batch_parallel(&parallel).unwrap();
    let mut dec = Decoder::new();
    let decoded_s = dec.decode_all(&sequential).unwrap();

    assert_eq!(decoded_p.len(), decoded_s.len());
    for (a, b) in decoded_p.iter().zip(decoded_s.iter()) {
        assert!(jeq(a, b));
    }
}

#[test]
fn parallel_nested_keys_are_interned() {
    let mut table = SymbolTable::new();
    let v = JsonValue::Array(vec![obj(vec![("deep", obj(vec![("deeper", num(1))]))])]);
    intern_nested(&mut table, &v).unwrap();
    assert!(table.contains_key("deep"));
    assert!(table.contains_key("deeper"));

    let messages = vec![obj(vec![("outer", obj(vec![("inner", JsonValue::Null)]))]), num(3)];
    let table = prebuild_symbol_table(&messages).unwrap();
    assert_eq!(table.resolve(21), Some("outer"));
    assert_eq!(table.resolve(22), Some("inner"));
}

#[test]
fn parallel_parts_and_assembly() {
    let messages = vec![obj(vec![("k", num(1))])];
    let table = prebuild_symbol_table(&messages).unwrap();
    assert_eq!(encode_message_data(&table, &num(1)), Err(FluxPackError::ExpectedObject));
    let part = encode_message_data(&table, &messages[0]).unwrap();
    assert_eq!(part[0], 0x02);
    let all = assemble_batch(&table, &[part.clone()]);
    // DEF frames for every entry of the table, then the DATA frame
    assert!(all.ends_with(&part));
    assert_eq!(&all[..4], &[0x01, 1, 5, b'e']);
    let back = decode_batch_parallel(&all).unwrap();
    assert_eq!(back.len(), 1);
    assert!(jeq(&back[0], &messages[0]));
    assert!(encode_batch_parallel(&[]).unwrap().is_empty());
    let _ = JsonNumber::Int(0);
}
