use fluxpack::error::FluxPackError;
use fluxpack::float_bits::{f64_as_exact_f32, i64_to_f64_bits, narrow_f64_bits, u64_to_f64_bits, widen_f32_bits};
use fluxpack::json::{JsonNumber, JsonValue};
use fluxpack::text::{concat_str, hex_string, push_decimal, str_eq, string_from_utf8, timestamp_string, with_decimal};
use fluxpack::varint::{
    decode_signed_varint, decode_signed_varint_at, decode_varint, decode_varint_at, encode_signed_varint,
    encode_varint, varint_len, zigzag_decode, zigzag_encode,
};
use fluxpack::wire::{f64_finite, number_from_u64_exec, object_get, object_insert, push_bytes, read_u64_le};
use fluxpack::{FrameType, ValueType, MAX_TOKENS};

struct Lcg(u64);

impl Lcg {
    fn next(&mut self) -> u64 {
        self.0 = self.0.wrapping_mul(6364136223846793005).wrapping_add(1442695040888963407);
        self.0 ^ (self.0 >> 29)
    }
}

#[test]
fn varint_known_bytes() {
    let mut buf = Vec::new();
    encode_varint(300, &mut buf);
    assert_eq!(buf, vec![0xAC, 0x02]);
    assert_eq!(decode_varint(&buf), Ok((300, 2)));
    assert_eq!(varint_len(300), 2);
    let mut big = Vec::new();
    encode_varint(u64::MAX, &mut big);
    assert_eq!(big.len(), 10);
    assert_eq!(decode_varint(&big), Ok((u64::MAX, 10)));
    assert_eq!(decode_varint_at(&[9, 0x05], 1), Ok((5, 1)));
}

#[test]
fn varint_errors() {
    assert_eq!(decode_varint(&[]), Err(FluxPackError::BufferOverrun));
    assert_eq!(decode_varint(&[0x80, 0x80]), Err(FluxPackError::BufferOverrun));
    assert_eq!(decode_varint(&[0xFF; 11]), Err(FluxPackError::VarintOverflow));
}

#[test]
fn varint_roundtrip_many() {
    let mut r = Lcg(7);
    for _ in 0..2000 {
        let v = r.next() >> (r.next() % 64);
        let mut buf = vec![0x55];
        encode_varint(v, &mut buf);
        assert_eq!(decode_varint_at(&buf, 1), Ok((v, buf.len() - 1)));
        assert_eq!(varint_len(v), buf.len() - 1);
        let s = v as i64;
        let mut sb = Vec::new();
        encode_signed_varint(s, &mut sb);
        assert_eq!(decode_signed_varint(&sb), Ok((s, sb.len())));
        assert_eq!(decode_signed_varint_at(&sb, 0), Ok((s, sb.len())));
        assert_eq!(zigzag_decode(zigzag_encode(s)), s);
    }
}

#[test]
fn zigzag_values() {
    assert_eq!(zigzag_encode(0), 0);
    assert_eq!(zigzag_encode(-1), 1);
    assert_eq!(zigzag_encode(1), 2);
    assert_eq!(zigzag_encode(-2), 3);
    assert_eq!(zigzag_encode(i64::MAX), u64::MAX - 1);
    assert_eq!(zigzag_encode(i64::MIN), u64::MAX);
    assert_eq!(zigzag_decode(3), -2);
}

#[test]
fn float_conversions_match_the_hardware() {
    let mut r = Lcg(11);
    for _ in 0..20000 {
        let b32 = r.next() as u32;
        let x = f32::from_bits(b32);
        if !x.is_nan() {
            assert_eq!(widen_f32_bits(b32), (x as f64).to_bits());
        }
        let b64 = r.next();
        let y = f64::from_bits(b64);
        if !y.is_nan() {
            assert_eq!(narrow_f64_bits(b64), (y as f32).to_bits(), "{:e}", y);
            let exact = (y as f32) as f64 == y;
            assert_eq!(f64_as_exact_f32(b64).is_some(), exact);
        }
        let n = r.next() >> (r.next() % 64);
        assert_eq!(u64_to_f64_bits(n), (n as f64).to_bits());
        let m = n as i64;
        assert_eq!(i64_to_f64_bits(m), (m as f64).to_bits());
    }
}

#[test]
fn float_conversion_edges() {
    assert_eq!(f64_as_exact_f32(0.5f64.to_bits()), Some(0.5f32.to_bits()));
    assert_eq!(f64_as_exact_f32(0.1f64.to_bits()), None);
    assert_eq!(narrow_f64_bits(1e300f64.to_bits()), f32::INFINITY.to_bits());
    assert_eq!(widen_f32_bits(f32::MIN_POSITIVE.to_bits() / 2), ((f32::MIN_POSITIVE / 2.0) as f64).to_bits());
    assert_eq!(i64_to_f64_bits(i64::MIN), (i64::MIN as f64).to_bits());
    assert_eq!(u64_to_f64_bits(u64::MAX), (u64::MAX as f64).to_bits());
    assert!(f64_finite(1.0f64.to_bits()));
    assert!(!f64_finite(f64::INFINITY.to_bits()));
    assert!(!f64_finite(f64::NAN.to_bits()));
}

#[test]
fn text_helpers() {
    assert_eq!(string_from_utf8("héllo".as_bytes()), "héllo");
    assert_eq!(concat_str("ab", "cd"), "abcd");
    assert_eq!(hex_string(&[0x00, 0xAB, 0x7f]), "00ab7f");
    let mut out = vec![b'x'];
    push_decimal(1203, &mut out);
    assert_eq!(out, b"x1203".to_vec());
    assert_eq!(with_decimal("key_", 0), "key_0");
    assert_eq!(with_decimal("key_", 99), "key_99");
    assert_eq!(timestamp_string(1_700_000_000_042), "1700000000.042Z");
    assert_eq!(timestamp_string(5), "0.005Z");
    assert!(str_eq("same", "same"));
    assert!(!str_eq("same", "sane"));
    assert!(!str_eq("a", "ab"));
}

#[test]
fn wire_helpers() {
    assert_eq!(number_from_u64_exec(5), JsonNumber::Int(5));
    assert_eq!(number_from_u64_exec(u64::MAX), JsonNumber::UInt(u64::MAX));
    let bytes = [1u8, 0, 0, 0, 0, 0, 0, 0, 2];
    assert_eq!(read_u64_le(&bytes, 0), 1);
    assert_eq!(read_u64_le(&bytes, 1), 2u64 << 56);
    let mut buf = vec![1];
    push_bytes(&mut buf, &[2, 3]);
    assert_eq!(buf, vec![1, 2, 3]);

    let mut fields: Vec<(String, JsonValue)> = Vec::new();
    object_insert(&mut fields, "a".to_string(), JsonValue::Bool(true));
    object_insert(&mut fields, "b".to_string(), JsonValue::Null);
    object_insert(&mut fields, "a".to_string(), JsonValue::Bool(false));
    assert_eq!(fields.len(), 2);
    assert_eq!(fields[0].0, "a");
    assert!(matches!(object_get(&fields, &"a".to_string()), Some(JsonValue::Bool(false))));
    assert!(object_get(&fields, &"z".to_string()).is_none());
}

#[test]
fn frame_and_value_tags() {
    for t in [
        FrameType::Def,
        FrameType::Data,
        FrameType::Struct,
        FrameType::Reset,
        FrameType::Debug,
        FrameType::Ack,
        FrameType::Columnar,
        FrameType::Eos,
    ] {
        assert_eq!(FrameType::from_tag(t.tag()), Some(t));
    }
    assert_eq!(FrameType::Eos.tag(), 0xFF);
    assert_eq!(FrameType::from_tag(0x07), None);
    let mut count = 0;
    for b in 0..=255u8 {
        if let Some(v) = ValueType::from_tag(b) {
            assert_eq!(v.tag(), b);
            count += 1;
        }
    }
    assert_eq!(count, 16);
    assert_eq!(ValueType::DeltaNums.tag(), 0x11);
    assert_eq!(MAX_TOKENS, 0x3FFF);
}

#[test]
fn varint_bytes_hold_seven_bit_groups() {
    for &v in &[0u64, 1, 127, 128, 300, 16_383, 16_384, u64::MAX] {
        let mut buf = Vec::new();
        encode_varint(v, &mut buf);
        let mut total: u128 = 0;
        for (i, b) in buf.iter().enumerate() {
            total += ((b & 0x7F) as u128) << (7 * i);
            if i + 1 < buf.len() {
                assert!(*b >= 0x80);
            } else {
                assert!(*b < 0x80);
            }
        }
        assert_eq!(total, v as u128);
    }
}
