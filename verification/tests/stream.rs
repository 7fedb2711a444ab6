use fluxpack::columnar::{decode_columnar, reconstruct_array};
use fluxpack::error::FluxPackError;
use fluxpack::json::{JsonNumber, JsonValue};
use fluxpack::stream::{Frame, StreamReader, StreamWriter};

fn num(n: i64) -> JsonValue {
    JsonValue::Number(JsonNumber::Int(n))
}

fn float(x: f64) -> JsonValue {
    JsonValue::Number(JsonNumber::Float(x.to_bits()))
}

fn text(s: &str) -> JsonValue {
    JsonValue::String(s.to_string())
}

fn fields(pairs: Vec<(&str, JsonValue)>) -> Vec<(String, JsonValue)> {
    pairs.into_iter().map(|(k, v)| (k.to_string(), v)).collect()
}

fn obj(pairs: Vec<(&str, JsonValue)>) -> JsonValue {
    JsonValue::Object(fields(pairs))
}

/// Equality of JSON values in which object fields compare as a map.
fn jeq(a: &JsonValue, b: &JsonValue) -> bool {
    match (a, b) {
        (JsonValue::Null, JsonValue::Null) => true,
        (JsonValue::Bool(x), JsonValue::Bool(y)) => x == y,
        (JsonValue::Number(x), JsonValue::Number(y)) => x == y,
        (JsonValue::String(x), JsonValue::String(y)) => x == y,
        (JsonValue::Array(x), JsonValue::Array(y)) => {
            x.len() == y.len() && x.iter().zip(y.iter()).all(|(p, q)| jeq(p, q))
        }
        (JsonValue::Object(x), JsonValue::Object(y)) => {
            x.len() == y.len()
                && x.iter().all(|(k, v)| y.iter().any(|(k2, v2)| k == k2 && jeq(v, v2)))
        }
        _ => false,
    }
}

fn data_of(frames: &[Frame]) -> Vec<&JsonValue> {
    frames
        .iter()
        .filter_map(|f| match f {
            Frame::Data(v) => Some(v),
            _ => None,
        })
        .collect()
}

#[test]
fn stream_test_stream_roundtrip() {
    let messages = vec![
        obj(vec![("user_id", num(8821)), ("email", text("user@example.com")), ("active", JsonValue::Bool(true))]),
        obj(vec![("user_id", num(8822)), ("email", text("other@example.com")), ("active", JsonValue::Bool(false))]),
        obj(vec![("user_id", num(8823)), ("email", text("third@example.com")), ("active", JsonValue::Bool(true))]),
    ];

    let mut writer = StreamWriter::new();
    for msg in &messages {
        writer.write_data(msg).unwrap();
    }
    let bytes = writer.into_buffer();

    let mut reader = StreamReader::new();
    let frames = reader.read_all(&bytes).unwrap();

    // Should have 3 DATA frames (DEFs are absorbed into symbol table)
    let data_frames = data_of(&frames);

    assert_eq!(data_frames.len(), 3);
    assert!(jeq(data_frames[0], &messages[0]));
    assert!(jeq(data_frames[1], &messages[1]));
    assert!(jeq(data_frames[2], &messages[2]));
}

#[test]
fn test_stream_batch() {
    let messages = vec![obj(vec![("a", num(1)), ("b", num(2))]), obj(vec![("a", num(3)), ("b", num(4))])];

    let mut writer = StreamWriter::new();
    writer.write_batch(&messages).unwrap();
    let bytes = writer.into_buffer();

    let mut reader = StreamReader::new();
    let frames = reader.read_all(&bytes).unwrap();
    let data_count = frames.iter().filter(|f| matches!(f, Frame::Data(_))).count();
    assert_eq!(data_count, 2);
}

#[test]
fn stream_batch_reads_back_in_order() {
    let messages = vec![
        obj(vec![("loss", float(0.5)), ("step", num(1))]),
        obj(vec![("name", text("run")), ("nested", obj(vec![("x", num(-7))]))]),
        obj(vec![("step", num(2))]),
    ];
    let mut writer = StreamWriter::new();
    writer.write_batch(&messages).unwrap();
    let bytes = writer.into_buffer();
    let mut reader = StreamReader::new();
    let frames = reader.read_all(&bytes).unwrap();
    let data = data_of(&frames);
    assert_eq!(data.len(), 3);
    for i in 0..3 {
        assert!(jeq(data[i], &messages[i]));
    }
    let mut writer = StreamWriter::new();
    let refused = writer.write_batch(&[obj(vec![("a", num(1))]), num(5)]);
    assert!(refused.is_err());
}

#[test]
fn test_stream_iterator() {
    let messages = vec![obj(vec![("x", num(1))]), obj(vec![("x", num(2))])];

    let mut writer = StreamWriter::new();
    for msg in &messages {
        writer.write_data(msg).unwrap();
    }
    let bytes = writer.into_buffer();

    let mut reader = StreamReader::new();
    let frames: Vec<Frame> = reader.frames(&bytes);
    let data_count = frames.iter().filter(|f| matches!(f, Frame::Data(_))).count();
    assert_eq!(data_count, 2);
}

#[test]
fn stream_def_frames_are_reported() {
    let mut writer = StreamWriter::new();
    let t = writer.write_def("custom").unwrap();
    assert_eq!(t, 21);
    // a second call writes nothing more
    let len = writer.buffer().len();
    assert_eq!(writer.write_def("custom").unwrap(), 21);
    assert_eq!(writer.buffer().len(), len);
    // a pre-defined key needs no frame
    assert_eq!(writer.write_def("epoch").unwrap(), 1);
    assert_eq!(writer.buffer().len(), len);
    assert_eq!(writer.buffer(), &[0x01, 21, 6, b'c', b'u', b's', b't', b'o', b'm']);

    let mut reader = StreamReader::new();
    let frames = reader.read_all(writer.buffer()).unwrap();
    assert_eq!(frames.len(), 1);
    match &frames[0] {
        Frame::Def { token, key } => {
            assert_eq!(*token, 21);
            assert_eq!(key, "custom");
        }
        _ => panic!("expected a DEF frame"),
    }
    assert_eq!(reader.symbol_table().resolve(21), Some("custom"));
}

#[test]
fn stream_end_of_stream_and_errors() {
    let mut reader = StreamReader::new();
    // reading stops at the end-of-stream frame, which is not handed out
    let frames = reader.read_all(&[0xFF, 0x02]).unwrap();
    assert!(frames.is_empty());
    let mut reader = StreamReader::new();
    assert!(matches!(reader.read_frame(&[0xFF]).unwrap(), Some(Frame::Eos)));

    let mut reader = StreamReader::new();
    assert!(reader.read_frame(&[]).unwrap().is_none());

    let mut reader = StreamReader::new();
    assert!(reader.read_all(&[0x77]).is_err());

    // a frame cut short
    let mut reader = StreamReader::new();
    assert!(reader.read_all(&[0x01, 30, 5, b'a']).is_err());
    // the frames before a failure are still handed out by `frames`
    let mut reader = StreamReader::new();
    let fs = reader.frames(&[0x01, 30, 1, b'a', 0x01, 31, 5, b'a']);
    assert_eq!(fs.len(), 1);
    reader.reset();
    assert_eq!(reader.symbol_table().resolve(30), None);
}

#[test]
fn stream_columnar_frame() {
    let rows = vec![
        obj(vec![("epoch", num(1)), ("loss", float(0.5))]),
        obj(vec![("epoch", num(2)), ("loss", float(0.25))]),
        obj(vec![("epoch", num(3)), ("loss", float(0.125))]),
    ];
    let mut writer = StreamWriter::new();
    assert_eq!(writer.write_columnar_data("history", &rows), Ok(true));
    // an array that is not columnar writes nothing
    let before = writer.buffer().len();
    assert_eq!(writer.write_columnar_data("history", &rows[..2]), Ok(false));
    assert_eq!(writer.buffer().len(), before);

    let mut reader = StreamReader::new();
    let frames = reader.read_all(writer.buffer()).unwrap();
    let col = frames.iter().find_map(|f| match f {
        Frame::Columnar { row_count, data } => Some((*row_count, data.clone())),
        _ => None,
    });
    let (_, data) = col.expect("a columnar frame");
    let (n, cols, used) = decode_columnar(&data).unwrap();
    assert_eq!(used, data.len());
    assert!(jeq(&reconstruct_array(n, cols), &JsonValue::Array(rows)));
}

#[test]
fn stream_reset_and_fingerprint() {
    let mut writer = StreamWriter::new();
    writer.write_data(&obj(vec![("k", num(1))])).unwrap();
    let fp = writer.schema_fingerprint();
    assert_ne!(fp, 0);
    assert_eq!(writer.schema_fingerprint(), fp);
    assert!(!writer.schema_unchanged());
    assert!(writer.schema_unchanged());
    writer.reset();
    assert!(writer.buffer().is_empty());
    assert_eq!(writer.write_data(&num(1)), Err(FluxPackError::ExpectedObject));
}
