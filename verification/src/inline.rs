//! Inline mode: a self-contained encoding of a small flat object, with no symbol table.
//!
//! `0xFE | field count (u8) | per field: key length (u8) | key bytes | tag | value`, the
//! values tagged `0x00` null, `0x01` true, `0x02` false, `0x03` i8, `0x04` i16, `0x05` i32,
//! `0x06` i64, `0x07` f32, `0x08` f64, `0x09` string (u8 length), `0x0B` u64, all little-endian.
use vstd::prelude::*;
use vstd::utf8::{encode_utf8, decode_utf8, valid_utf8, encode_utf8_valid_utf8, encode_utf8_decode_utf8};
use vstd::bytes::{spec_u16_to_le_bytes, spec_u16_from_le_bytes, spec_u32_to_le_bytes, spec_u32_from_le_bytes,
    spec_u64_to_le_bytes, spec_u64_from_le_bytes, lemma_auto_spec_u16_to_from_le_bytes,
    lemma_auto_spec_u32_to_from_le_bytes, lemma_auto_spec_u64_to_from_le_bytes};
use crate::json::{Json, JsonNumber, JsonValue, fields_view, lemma_object_view};
use crate::wire::{f64_bits_finite, f64_finite, number_from_u64, number_from_u64_exec, read_u64_le, push_bytes,
    obj_insert, object_insert, keys_distinct, json_wf};
use crate::float_bits::{f64_fits_f32, narrow_f64, widen_f32, f64_as_exact_f32, widen_f32_bits};
use crate::text::{with_decimal, concat_str, ascii_chars, decimal_bytes};
use crate::outside::utf8_str;
use crate::roundtrip::{holds_at, lemma_holds_split, lemma_find_key_none};

verus! {

/// First byte of an inline payload.
pub const INLINE_MAGIC: u8 = 0xFE;

/// Largest payload, in bytes, that inline mode writes.
pub const INLINE_THRESHOLD: usize = 256;

/// An array or an object, which inline mode does not carry.
pub open spec fn is_nested(v: Json) -> bool {
    v is Arr || v is Obj
}

/// Bytes a number takes in inline mode, tag included: an integer in the narrowest of
/// i8, i16, i32 and i64 that holds it, an unsigned integer in 8 bytes, a double in 4 bytes
/// when a single holds it exactly, else in 8.
pub open spec fn inline_number_size(n: JsonNumber) -> int {
    match n {
        JsonNumber::Int(i) => if -0x80 <= i <= 0x7F {
            2
        } else if -0x8000 <= i <= 0x7FFF {
            3
        } else if -0x8000_0000 <= i <= 0x7FFF_FFFF {
            5
        } else {
            9
        },
        JsonNumber::UInt(_) => 9,
        JsonNumber::Float(b) => if f64_fits_f32(b) { 5 } else { 9 },
    }
}

/// Bytes a value takes in inline mode; an array or an object counts as `usize::MAX`.
pub open spec fn inline_value_size(v: Json) -> int {
    match v {
        Json::Null => 1,
        Json::Bool(_) => 1,
        Json::Num(n) => inline_number_size(n),
        Json::Str(s) => 2 + encode_utf8(s).len() as int,
        _ => usize::MAX as int,
    }
}

/// Bytes the first `n` fields take in inline mode.
pub open spec fn inline_fields_size(fields: Seq<(Seq<char>, Json)>, n: nat) -> int
    decreases n,
{
    if n == 0 || n > fields.len() {
        0
    } else {
        inline_fields_size(fields, (n - 1) as nat) + 1 + encode_utf8(fields[n - 1].0).len()
            + inline_value_size(fields[n - 1].1)
    }
}

/// Bytes an object takes in inline mode, header included.
pub open spec fn inline_size(fields: Seq<(Seq<char>, Json)>) -> int {
    2 + inline_fields_size(fields, fields.len())
}

/// Whether inline mode takes the object: at most 255 fields, none an array or an object,
/// and at most `INLINE_THRESHOLD` bytes in all.
pub open spec fn inline_eligible(fields: Seq<(Seq<char>, Json)>) -> bool {
    &&& fields.len() <= 255
    &&& forall|i: int| 0 <= i < fields.len() ==> !is_nested(#[trigger] fields[i].1)
    &&& inline_size(fields) <= INLINE_THRESHOLD
}

/// A number in inline mode.
pub open spec fn inline_number_bytes(n: JsonNumber) -> Seq<u8> {
    match n {
        JsonNumber::Int(i) => if -0x80 <= i <= 0x7F {
            seq![0x03u8, i as u8]
        } else if -0x8000 <= i <= 0x7FFF {
            seq![0x04u8] + spec_u16_to_le_bytes(i as u16)
        } else if -0x8000_0000 <= i <= 0x7FFF_FFFF {
            seq![0x05u8] + spec_u32_to_le_bytes(i as u32)
        } else {
            seq![0x06u8] + spec_u64_to_le_bytes(i as u64)
        },
        JsonNumber::UInt(u) => seq![0x0Bu8] + spec_u64_to_le_bytes(u),
        JsonNumber::Float(b) => if f64_fits_f32(b) {
            seq![0x07u8] + spec_u32_to_le_bytes(narrow_f64(b))
        } else {
            seq![0x08u8] + spec_u64_to_le_bytes(b)
        },
    }
}

/// The low byte of a length.
pub open spec fn len_byte(n: nat) -> u8 {
    (n % 256) as u8
}

/// A value in inline mode (an array or an object, which never gets here, as a null).
pub open spec fn inline_value_bytes(v: Json) -> Seq<u8> {
    match v {
        Json::Null => seq![0x00u8],
        Json::Bool(b) => if b { seq![0x01u8] } else { seq![0x02u8] },
        Json::Num(n) => inline_number_bytes(n),
        Json::Str(s) => seq![0x09u8, len_byte(encode_utf8(s).len())] + encode_utf8(s),
        _ => seq![0x00u8],
    }
}

/// The first `n` fields in inline mode.
pub open spec fn inline_fields_bytes(fields: Seq<(Seq<char>, Json)>, n: nat) -> Seq<u8>
    decreases n,
{
    if n == 0 || n > fields.len() {
        Seq::empty()
    } else {
        let k = encode_utf8(fields[n - 1].0);
        inline_fields_bytes(fields, (n - 1) as nat) + seq![len_byte(k.len())] + k
            + inline_value_bytes(fields[n - 1].1)
    }
}

/// An object in inline mode.
pub open spec fn inline_bytes(fields: Seq<(Seq<char>, Json)>) -> Seq<u8> {
    seq![INLINE_MAGIC, len_byte(fields.len())] + inline_fields_bytes(fields, fields.len())
}

/// `x`, or `usize::MAX` where it is larger.
pub open spec fn saturated(x: int) -> int {
    if x > usize::MAX { usize::MAX as int } else { x }
}

proof fn lemma_value_size_positive(v: Json)
    ensures
        inline_value_size(v) >= 1,
{
}

proof fn lemma_fields_size_nonneg(fields: Seq<(Seq<char>, Json)>, n: nat)
    ensures
        inline_fields_size(fields, n) >= 0,
    decreases n,
{
    if n > 0 && n <= fields.len() {
        lemma_fields_size_nonneg(fields, (n - 1) as nat);
        lemma_value_size_positive(fields[n - 1].1);
    }
}

/// Estimates the bytes a value takes in inline mode (`usize::MAX` for an array or an object).
fn estimate_inline_value_size(value: &JsonValue) -> (r: usize)
    ensures
        r == saturated(inline_value_size(value@)),
{
    match value {
        JsonValue::Null => 1,
        JsonValue::Bool(_) => 1,
        JsonValue::Number(n) => match n {
            JsonNumber::Int(i) => {
                let i = *i;
                if -0x80 <= i && i <= 0x7F {
                    2
                } else if -0x8000 <= i && i <= 0x7FFF {
                    3
                } else if -0x8000_0000 <= i && i <= 0x7FFF_FFFF {
                    5
                } else {
                    9
                }
            },
            JsonNumber::UInt(_) => 9,
            JsonNumber::Float(b) => match f64_as_exact_f32(*b) {
                Some(_) => 5,
                None => 9,
            },
        },
        JsonValue::String(s) => {
            let bytes = s.as_str().as_bytes();
            2usize.saturating_add(bytes.len())
        },
        JsonValue::Array(_) => usize::MAX,
        JsonValue::Object(_) => usize::MAX,
    }
}

/// Estimates the bytes an object takes in inline mode (`usize::MAX` when larger).
fn estimate_inline_size(obj: &Vec<(String, JsonValue)>) -> (r: usize)
    ensures
        r == saturated(inline_size(fields_view(obj@))),
{
    let ghost fv = fields_view(obj@);
    let mut size: usize = 2;
    let mut i: usize = 0;
    while i < obj.len()
        invariant
            i <= obj@.len(),
            fv == fields_view(obj@),
            size == saturated(2 + inline_fields_size(fv, i as nat)),
        decreases obj.len() - i,
    {
        let (key, value) = &obj[i];
        let klen = key.as_str().as_bytes().len();
        let vsize = estimate_inline_value_size(value);
        proof {
            lemma_fields_size_nonneg(fv, i as nat);
            lemma_value_size_positive(value@);
            assert(fv[i as int] == (key@, value@));
        }
        size = size.saturating_add(1).saturating_add(klen).saturating_add(vsize);
        i = i + 1;
    }
    size
}

/// Whether inline mode takes the object.
fn should_use_inline(obj: &Vec<(String, JsonValue)>) -> (r: bool)
    ensures
        r == inline_eligible(fields_view(obj@)),
{
    let ghost fv = fields_view(obj@);
    if obj.len() > 255 {
        return false;
    }
    let mut i: usize = 0;
    while i < obj.len()
        invariant
            i <= obj@.len(),
            fv == fields_view(obj@),
            forall|j: int| 0 <= j < i ==> !is_nested(#[trigger] fv[j].1),
        decreases obj.len() - i,
    {
        match &obj[i].1 {
            JsonValue::Array(_) => {
                assert(is_nested(fv[i as int].1));
                return false;
            },
            JsonValue::Object(_) => {
                assert(is_nested(fv[i as int].1));
                return false;
            },
            _ => {},
        }
        i = i + 1;
    }
    let total = estimate_inline_size(obj);
    total <= INLINE_THRESHOLD
}

/// Writes a value in inline mode.
fn encode_inline_value(value: &JsonValue, buf: &mut Vec<u8>)
    ensures
        final(buf)@ == old(buf)@ + inline_value_bytes(value@),
{
    match value {
        JsonValue::Null => buf.push(0x00),
        JsonValue::Bool(b) => {
            if *b {
                buf.push(0x01);
            } else {
                buf.push(0x02);
            }
        },
        JsonValue::Number(n) => match n {
            JsonNumber::Int(i) => {
                let i = *i;
                if -0x80 <= i && i <= 0x7F {
                    buf.push(0x03);
                    buf.push(i as u8);
                } else if -0x8000 <= i && i <= 0x7FFF {
                    buf.push(0x04);
                    let b = vstd::bytes::u16_to_le_bytes(i as u16);
                    push_bytes(buf, b.as_slice());
                } else if -0x8000_0000 <= i && i <= 0x7FFF_FFFF {
                    buf.push(0x05);
                    let b = vstd::bytes::u32_to_le_bytes(i as u32);
                    push_bytes(buf, b.as_slice());
                } else {
                    buf.push(0x06);
                    let b = vstd::bytes::u64_to_le_bytes(i as u64);
                    push_bytes(buf, b.as_slice());
                }
            },
            JsonNumber::UInt(u) => {
                buf.push(0x0B);
                let b = vstd::bytes::u64_to_le_bytes(*u);
                push_bytes(buf, b.as_slice());
            },
            JsonNumber::Float(bits) => match f64_as_exact_f32(*bits) {
                Some(x) => {
                    buf.push(0x07);
                    let b = vstd::bytes::u32_to_le_bytes(x);
                    push_bytes(buf, b.as_slice());
                },
                None => {
                    buf.push(0x08);
                    let b = vstd::bytes::u64_to_le_bytes(*bits);
                    push_bytes(buf, b.as_slice());
                },
            },
        },
        JsonValue::String(s) => {
            buf.push(0x09);
            let bytes = s.as_str().as_bytes();
            buf.push((bytes.len() % 256) as u8);
            push_bytes(buf, bytes);
        },
        JsonValue::Array(_) => buf.push(0x00),
        JsonValue::Object(_) => buf.push(0x00),
    }
    assert(final(buf)@ =~= old(buf)@ + inline_value_bytes(value@));
}

/// Encodes a small flat object in inline mode; an empty result means the object is not
/// for inline mode (too many fields, a nested value, or over `INLINE_THRESHOLD` bytes).
pub fn encode_inline(obj: &Vec<(String, JsonValue)>) -> (r: Vec<u8>)
    ensures
        r@ == if inline_eligible(fields_view(obj@)) {
            inline_bytes(fields_view(obj@))
        } else {
            Seq::empty()
        },
{
    let ghost fv = fields_view(obj@);
    let field_count = obj.len();
    if field_count > 255 || !should_use_inline(obj) {
        return Vec::new();
    }
    let estimated_size = estimate_inline_size(obj);
    let mut buf: Vec<u8> = Vec::with_capacity(estimated_size);
    buf.push(INLINE_MAGIC);
    buf.push(field_count as u8);
    let mut i: usize = 0;
    while i < obj.len()
        invariant
            i <= obj@.len(),
            field_count == obj@.len(),
            field_count <= 255,
            fv == fields_view(obj@),
            buf@ == seq![INLINE_MAGIC, len_byte(fv.len())] + inline_fields_bytes(fv, i as nat),
        decreases obj.len() - i,
    {
        let (key, value) = &obj[i];
        let key_bytes = key.as_str().as_bytes();
        buf.push((key_bytes.len() % 256) as u8);
        push_bytes(&mut buf, key_bytes);
        encode_inline_value(value, &mut buf);
        proof {
            assert(fv[i as int] == (key@, value@));
        }
        i = i + 1;
        assert(buf@ =~= seq![INLINE_MAGIC, len_byte(fv.len())] + inline_fields_bytes(fv, i as nat));
    }
    buf
}

/// Why an inline payload was refused: a message, or bytes that are not UTF-8 (whose message
/// begins `invalid utf8: ` and goes on with the text of the UTF-8 error).
pub ghost enum InlineFault {
    Message(Seq<char>),
    BadUtf8,
}

/// Whether `m` is the message of `f`.
pub open spec fn fault_text(f: InlineFault, m: Seq<char>) -> bool {
    match f {
        InlineFault::Message(t) => m == t,
        InlineFault::BadUtf8 => "invalid utf8: "@.is_prefix_of(m),
    }
}

/// A double read back in inline mode: a number when finite, else the integer 0.
pub open spec fn inline_float(bits: u64) -> Json {
    if f64_bits_finite(bits) {
        Json::Num(JsonNumber::Float(bits))
    } else {
        Json::Num(JsonNumber::Int(0))
    }
}

/// Reading the inline value at `pos`: the value and where the next one starts.
pub open spec fn parse_inline_value(s: Seq<u8>, pos: nat) -> Result<(Json, nat), InlineFault> {
    if pos >= s.len() {
        Err(InlineFault::Message("unexpected end in value"@))
    } else {
        let tag = s[pos as int];
        let p = pos + 1;
        if tag == 0x00 {
            Ok((Json::Null, p))
        } else if tag == 0x01 {
            Ok((Json::Bool(true), p))
        } else if tag == 0x02 {
            Ok((Json::Bool(false), p))
        } else if tag == 0x03 {
            if p >= s.len() {
                Err(InlineFault::Message("truncated i8"@))
            } else {
                Ok((Json::Num(JsonNumber::Int(s[p as int] as i8 as i64)), p + 1))
            }
        } else if tag == 0x04 {
            if p + 2 > s.len() {
                Err(InlineFault::Message("truncated i16"@))
            } else {
                let x = spec_u16_from_le_bytes(s.subrange(p as int, (p + 2) as int));
                Ok((Json::Num(JsonNumber::Int(x as i16 as i64)), p + 2))
            }
        } else if tag == 0x05 {
            if p + 4 > s.len() {
                Err(InlineFault::Message("truncated i32"@))
            } else {
                let x = spec_u32_from_le_bytes(s.subrange(p as int, (p + 4) as int));
                Ok((Json::Num(JsonNumber::Int(x as i32 as i64)), p + 4))
            }
        } else if tag == 0x06 {
            if p + 8 > s.len() {
                Err(InlineFault::Message("truncated i64"@))
            } else {
                let x = spec_u64_from_le_bytes(s.subrange(p as int, (p + 8) as int));
                Ok((Json::Num(JsonNumber::Int(x as i64)), p + 8))
            }
        } else if tag == 0x07 {
            if p + 4 > s.len() {
                Err(InlineFault::Message("truncated f32"@))
            } else {
                let x = spec_u32_from_le_bytes(s.subrange(p as int, (p + 4) as int));
                Ok((inline_float(widen_f32(x)), p + 4))
            }
        } else if tag == 0x08 {
            if p + 8 > s.len() {
                Err(InlineFault::Message("truncated f64"@))
            } else {
                Ok((inline_float(spec_u64_from_le_bytes(s.subrange(p as int, (p + 8) as int))), p + 8))
            }
        } else if tag == 0x09 {
            if p >= s.len() {
                Err(InlineFault::Message("truncated string len"@))
            } else {
                let len = s[p as int] as nat;
                let start = p + 1;
                if start + len > s.len() {
                    Err(InlineFault::Message("truncated string"@))
                } else if !valid_utf8(s.subrange(start as int, (start + len) as int)) {
                    Err(InlineFault::BadUtf8)
                } else {
                    Ok((Json::Str(decode_utf8(s.subrange(start as int, (start + len) as int))), start + len))
                }
            }
        } else if tag == 0x0B {
            if p + 8 > s.len() {
                Err(InlineFault::Message("truncated u64"@))
            } else {
                Ok((Json::Num(number_from_u64(spec_u64_from_le_bytes(s.subrange(p as int, (p + 8) as int)))), p + 8))
            }
        } else {
            Err(InlineFault::Message("unknown tag: "@ + ascii_chars(decimal_bytes(tag as u64))))
        }
    }
}

/// Reading `n` more inline fields from `pos` into the object `acc`: the object and where
/// the reading stopped.
pub open spec fn parse_inline_fields(s: Seq<u8>, pos: nat, n: nat, acc: Seq<(Seq<char>, Json)>)
    -> Result<(Seq<(Seq<char>, Json)>, nat), InlineFault>
    decreases n,
{
    if n == 0 {
        Ok((acc, pos))
    } else if pos >= s.len() {
        Err(InlineFault::Message("unexpected end of input"@))
    } else {
        let key_len = s[pos as int] as nat;
        let start = pos + 1;
        if start + key_len > s.len() {
            Err(InlineFault::Message("key extends beyond input"@))
        } else if !valid_utf8(s.subrange(start as int, (start + key_len) as int)) {
            Err(InlineFault::BadUtf8)
        } else {
            let key = decode_utf8(s.subrange(start as int, (start + key_len) as int));
            match parse_inline_value(s, start + key_len) {
                Ok((v, next)) => parse_inline_fields(s, next, (n - 1) as nat, obj_insert(acc, key, v)),
                Err(f) => Err(f),
            }
        }
    }
}

/// Reading an inline payload: the object and the number of bytes it took.
pub open spec fn parse_inline(s: Seq<u8>) -> Result<(Seq<(Seq<char>, Json)>, nat), InlineFault> {
    if s.len() < 2 {
        Err(InlineFault::Message("input too short"@))
    } else if s[0] != INLINE_MAGIC {
        Err(InlineFault::Message("not inline format"@))
    } else {
        parse_inline_fields(s, 2, s[1] as nat, Seq::empty())
    }
}

/// The message for bytes that are not UTF-8.
fn utf8_message(e: &str) -> (m: String)
    ensures
        fault_text(InlineFault::BadUtf8, m@),
{
    let m = concat_str("invalid utf8: ", e);
    proof {
        let p = "invalid utf8: "@;
        assert(m@.subrange(0, p.len() as int) =~= p);
    }
    m
}

/// Decodes the inline value at `cursor`; returns it and where the next one starts.
fn decode_inline_value(input: &[u8], cursor: usize) -> (r: Result<(JsonValue, usize), String>)
    ensures
        match r {
            Ok((v, next)) => parse_inline_value(input@, cursor as nat) == Ok::<(Json, nat), InlineFault>((v@, next as nat)),
            Err(m) => parse_inline_value(input@, cursor as nat) matches Err(f) && fault_text(f, m@),
        },
{
    let len = input.len();
    if cursor >= len {
        return Err("unexpected end in value".to_owned());
    }
    let tag = input[cursor];
    let pos = cursor + 1;
    if tag == 0x00 {
        Ok((JsonValue::Null, pos))
    } else if tag == 0x01 {
        Ok((JsonValue::Bool(true), pos))
    } else if tag == 0x02 {
        Ok((JsonValue::Bool(false), pos))
    } else if tag == 0x03 {
        if pos >= len {
            return Err("truncated i8".to_owned());
        }
        let val = input[pos] as i8 as i64;
        Ok((JsonValue::Number(JsonNumber::Int(val)), pos + 1))
    } else if tag == 0x04 {
        if len - pos < 2 {
            return Err("truncated i16".to_owned());
        }
        let x = vstd::bytes::u16_from_le_bytes(vstd::slice::slice_subrange(input, pos, pos + 2));
        Ok((JsonValue::Number(JsonNumber::Int(x as i16 as i64)), pos + 2))
    } else if tag == 0x05 {
        if len - pos < 4 {
            return Err("truncated i32".to_owned());
        }
        let x = vstd::bytes::u32_from_le_bytes(vstd::slice::slice_subrange(input, pos, pos + 4));
        Ok((JsonValue::Number(JsonNumber::Int(x as i32 as i64)), pos + 4))
    } else if tag == 0x06 {
        if len - pos < 8 {
            return Err("truncated i64".to_owned());
        }
        let x = read_u64_le(input, pos);
        Ok((JsonValue::Number(JsonNumber::Int(x as i64)), pos + 8))
    } else if tag == 0x07 {
        if len - pos < 4 {
            return Err("truncated f32".to_owned());
        }
        let x = vstd::bytes::u32_from_le_bytes(vstd::slice::slice_subrange(input, pos, pos + 4));
        let w = widen_f32_bits(x);
        let v = if f64_finite(w) {
            JsonValue::Number(JsonNumber::Float(w))
        } else {
            JsonValue::Number(JsonNumber::Int(0))
        };
        Ok((v, pos + 4))
    } else if tag == 0x08 {
        if len - pos < 8 {
            return Err("truncated f64".to_owned());
        }
        let w = read_u64_le(input, pos);
        let v = if f64_finite(w) {
            JsonValue::Number(JsonNumber::Float(w))
        } else {
            JsonValue::Number(JsonNumber::Int(0))
        };
        Ok((v, pos + 8))
    } else if tag == 0x09 {
        if pos >= len {
            return Err("truncated string len".to_owned());
        }
        let slen = input[pos] as usize;
        let start = pos + 1;
        if len - start < slen {
            return Err("truncated string".to_owned());
        }
        match utf8_str(input, start, start + slen) {
            Ok(st) => Ok((JsonValue::String(st.to_owned()), start + slen)),
            Err(e) => Err(utf8_message(e.as_str())),
        }
    } else if tag == 0x0B {
        if len - pos < 8 {
            return Err("truncated u64".to_owned());
        }
        let x = read_u64_le(input, pos);
        Ok((JsonValue::Number(number_from_u64_exec(x)), pos + 8))
    } else {
        Err(with_decimal("unknown tag: ", tag as u64))
    }
}

/// Decodes an inline payload; returns the object and the number of bytes it took.
pub fn decode_inline(input: &[u8]) -> (r: Result<(Vec<(String, JsonValue)>, usize), String>)
    ensures
        match r {
            Ok((fields, used)) => parse_inline(input@) == Ok::<(Seq<(Seq<char>, Json)>, nat), InlineFault>(
                (fields_view(fields@), used as nat)),
            Err(m) => parse_inline(input@) matches Err(f) && fault_text(f, m@),
        },
{
    let len = input.len();
    if len < 2 {
        return Err("input too short".to_owned());
    }
    if input[0] != INLINE_MAGIC {
        return Err("not inline format".to_owned());
    }
    let field_count = input[1] as usize;
    let mut cursor: usize = 2;
    let mut obj: Vec<(String, JsonValue)> = Vec::new();
    let mut i: usize = 0;
    assert(fields_view(obj@) =~= Seq::<(Seq<char>, Json)>::empty());
    while i < field_count
        invariant
            len == input@.len(),
            len >= 2,
            input@[0] == INLINE_MAGIC,
            field_count == input@[1] as nat,
            i <= field_count,
            parse_inline(input@) == parse_inline_fields(input@, cursor as nat, (field_count - i) as nat,
                fields_view(obj@)),
        decreases field_count - i,
    {
        if cursor >= len {
            return Err("unexpected end of input".to_owned());
        }
        let key_len = input[cursor] as usize;
        let start = cursor + 1;
        if len - start < key_len {
            return Err("key extends beyond input".to_owned());
        }
        let key = match utf8_str(input, start, start + key_len) {
            Ok(st) => st.to_owned(),
            Err(e) => {
                return Err(utf8_message(e.as_str()));
            },
        };
        let (value, next) = match decode_inline_value(input, start + key_len) {
            Ok(x) => x,
            Err(m) => {
                return Err(m);
            },
        };
        object_insert(&mut obj, key, value);
        cursor = next;
        i = i + 1;
    }
    Ok((obj, cursor))
}

/// A value written in inline mode takes the bytes its size says.
proof fn lemma_value_bytes_len(v: Json)
    requires
        !is_nested(v),
    ensures
        inline_value_bytes(v).len() == inline_value_size(v),
{
    lemma_auto_spec_u16_to_from_le_bytes();
    lemma_auto_spec_u32_to_from_le_bytes();
    lemma_auto_spec_u64_to_from_le_bytes();
    match v {
        Json::Num(JsonNumber::Int(i)) => {
            if -0x80 <= i <= 0x7F {
            } else if -0x8000 <= i <= 0x7FFF {
                assert(spec_u16_to_le_bytes(i as u16).len() == 2);
            } else if -0x8000_0000 <= i <= 0x7FFF_FFFF {
                assert(spec_u32_to_le_bytes(i as u32).len() == 4);
            } else {
                assert(spec_u64_to_le_bytes(i as u64).len() == 8);
            }
        },
        Json::Num(JsonNumber::UInt(u)) => {
            assert(spec_u64_to_le_bytes(u).len() == 8);
        },
        Json::Num(JsonNumber::Float(b)) => {
            assert(spec_u64_to_le_bytes(b).len() == 8);
            assert(spec_u32_to_le_bytes(narrow_f64(b)).len() == 4);
        },
        _ => {},
    }
}

/// The first `n` fields written in inline mode take the bytes their size says.
proof fn lemma_fields_bytes_len(fields: Seq<(Seq<char>, Json)>, n: nat)
    requires
        n <= fields.len(),
        forall|i: int| 0 <= i < fields.len() ==> !is_nested(#[trigger] fields[i].1),
    ensures
        inline_fields_bytes(fields, n).len() == inline_fields_size(fields, n),
    decreases n,
{
    if n > 0 {
        lemma_fields_bytes_len(fields, (n - 1) as nat);
        lemma_value_bytes_len(fields[n - 1].1);
    }
}

/// Each field's share is part of the size of the first `n`.
proof fn lemma_field_size_within(fields: Seq<(Seq<char>, Json)>, n: nat, j: int)
    requires
        0 <= j < n <= fields.len(),
    ensures
        1 + encode_utf8(fields[j].0).len() + inline_value_size(fields[j].1) <= inline_fields_size(fields, n),
    decreases n,
{
    lemma_fields_size_nonneg(fields, (n - 1) as nat);
    lemma_value_size_positive(fields[n - 1].1);
    if j < n - 1 {
        lemma_field_size_within(fields, (n - 1) as nat, j);
    }
}

/// The inline bytes of the first `j` fields begin those of the first `n`.
proof fn lemma_fields_bytes_prefix(fields: Seq<(Seq<char>, Json)>, j: nat, n: nat)
    requires
        j <= n <= fields.len(),
    ensures
        inline_fields_bytes(fields, n) =~= inline_fields_bytes(fields, j) + inline_fields_bytes(fields, n).skip(
            inline_fields_bytes(fields, j).len() as int),
        inline_fields_bytes(fields, j).len() <= inline_fields_bytes(fields, n).len(),
    decreases n,
{
    if j < n {
        lemma_fields_bytes_prefix(fields, j, (n - 1) as nat);
    }
}

/// The byte at offset `k` of bytes held at `pos`.
proof fn lemma_holds_byte(s: Seq<u8>, pos: nat, b: Seq<u8>, k: int)
    requires
        holds_at(s, pos, b),
        0 <= k < b.len(),
    ensures
        s[pos + k] == b[k],
{
    assert(s.subrange(pos as int, (pos + b.len()) as int)[k] == s[pos + k]);
}

/// A value written in inline mode reads back as itself.
proof fn lemma_parse_inline_value(v: Json, s: Seq<u8>, pos: nat)
    requires
        !is_nested(v),
        json_wf(v),
        v matches Json::Str(st) ==> encode_utf8(st).len() < 256,
        holds_at(s, pos, inline_value_bytes(v)),
    ensures
        parse_inline_value(s, pos) == Ok::<(Json, nat), InlineFault>((v, pos + inline_value_bytes(v).len())),
{
    let b = inline_value_bytes(v);
    lemma_auto_spec_u16_to_from_le_bytes();
    lemma_auto_spec_u32_to_from_le_bytes();
    lemma_auto_spec_u64_to_from_le_bytes();
    lemma_value_bytes_len(v);
    lemma_holds_byte(s, pos, b, 0);
    match v {
        Json::Null => {},
        Json::Bool(x) => {},
        Json::Num(JsonNumber::Int(i)) => {
            if -0x80 <= i <= 0x7F {
                lemma_holds_byte(s, pos, b, 1);
                assert(-0x80 <= i <= 0x7F ==> (i as u8) as i8 as i64 == i) by (bit_vector);
            } else if -0x8000 <= i <= 0x7FFF {
                lemma_holds_split(s, pos, seq![0x04u8], spec_u16_to_le_bytes(i as u16));
                assert(-0x8000 <= i <= 0x7FFF ==> (i as u16) as i16 as i64 == i) by (bit_vector);
            } else if -0x8000_0000 <= i <= 0x7FFF_FFFF {
                lemma_holds_split(s, pos, seq![0x05u8], spec_u32_to_le_bytes(i as u32));
                assert(-0x8000_0000 <= i <= 0x7FFF_FFFF ==> (i as u32) as i32 as i64 == i) by (bit_vector);
            } else {
                lemma_holds_split(s, pos, seq![0x06u8], spec_u64_to_le_bytes(i as u64));
                assert((i as u64) as i64 == i) by (bit_vector);
            }
        },
        Json::Num(JsonNumber::UInt(u)) => {
            lemma_holds_split(s, pos, seq![0x0Bu8], spec_u64_to_le_bytes(u));
        },
        Json::Num(JsonNumber::Float(bits)) => {
            if f64_fits_f32(bits) {
                lemma_holds_split(s, pos, seq![0x07u8], spec_u32_to_le_bytes(narrow_f64(bits)));
            } else {
                lemma_holds_split(s, pos, seq![0x08u8], spec_u64_to_le_bytes(bits));
            }
        },
        Json::Str(st) => {
            let u = encode_utf8(st);
            lemma_holds_split(s, pos, seq![0x09u8, len_byte(u.len())], u);
            lemma_holds_byte(s, pos, b, 1);
            assert(len_byte(u.len()) as nat == u.len());
            encode_utf8_valid_utf8(st);
            encode_utf8_decode_utf8(st);
        },
        _ => {},
    }
}

/// One field step of the reading: key length, key, value.
proof fn lemma_inline_field_step(s: Seq<u8>, p: nat, key: Seq<char>, val: Json, q: nat, m: nat,
    acc: Seq<(Seq<char>, Json)>)
    requires
        p < s.len(),
        s[p as int] as nat == encode_utf8(key).len(),
        holds_at(s, p + 1, encode_utf8(key)),
        parse_inline_value(s, p + 1 + encode_utf8(key).len()) == Ok::<(Json, nat), InlineFault>((val, q)),
    ensures
        parse_inline_fields(s, p, m + 1, acc) == parse_inline_fields(s, q, m, obj_insert(acc, key, val)),
{
    encode_utf8_valid_utf8(key);
    encode_utf8_decode_utf8(key);
}

/// An object that inline mode takes is written in exactly its estimated size.
pub proof fn lemma_inline_bytes_len(fields: Seq<(Seq<char>, Json)>)
    requires
        inline_eligible(fields),
    ensures
        inline_bytes(fields).len() == inline_size(fields) <= INLINE_THRESHOLD,
{
    lemma_fields_bytes_len(fields, fields.len());
}

/// Reading the fields from the `k`-th on, after the first `k`, gives all of them.
proof fn lemma_parse_inline_fields(fields: Seq<(Seq<char>, Json)>, s: Seq<u8>, k: nat)
    requires
        k <= fields.len(),
        inline_eligible(fields),
        keys_distinct(fields),
        forall|i: int| 0 <= i < fields.len() ==> json_wf(#[trigger] fields[i].1),
        s == inline_bytes(fields),
    ensures
        parse_inline_fields(s, 2 + inline_fields_bytes(fields, k).len(), (fields.len() - k) as nat,
            fields.subrange(0, k as int)) == Ok::<(Seq<(Seq<char>, Json)>, nat), InlineFault>((fields, s.len())),
    decreases fields.len() - k,
{
    let n = fields.len();
    let all = inline_fields_bytes(fields, n);
    let pre = inline_fields_bytes(fields, k);
    lemma_fields_bytes_prefix(fields, k, n);
    let head = seq![INLINE_MAGIC, len_byte(n)];
    if k == n {
        assert(fields.subrange(0, k as int) =~= fields);
    } else {
        let key = fields[k as int].0;
        let val = fields[k as int].1;
        let kb = encode_utf8(key);
        let vb = inline_value_bytes(val);
        let next = inline_fields_bytes(fields, k + 1);
        assert(next == pre + seq![len_byte(kb.len())] + kb + vb);
        let p = 2 + pre.len();
        assert(p < s.len() && s[p as int] as nat == kb.len() && holds_at(s, p + 1, kb) && holds_at(s, p + 1 + kb.len(), vb)
            && s.len() == 2 + all.len() && p + 1 + kb.len() + vb.len() == 2 + next.len()) by {
            lemma_fields_bytes_prefix(fields, k + 1, n);
            assert(holds_at(s, 0, head + all)) by {
                assert(s.subrange(0, s.len() as int) =~= s);
            }
            lemma_holds_split(s, 0, head, all);
            lemma_holds_split(s, 2, next, all.skip(next.len() as int));
            lemma_holds_split(s, 2, pre + seq![len_byte(kb.len())] + kb, vb);
            lemma_holds_split(s, 2, pre + seq![len_byte(kb.len())], kb);
            lemma_holds_split(s, 2, pre, seq![len_byte(kb.len())]);
            lemma_holds_byte(s, p, seq![len_byte(kb.len())], 0);
            lemma_field_size_within(fields, n, k as int);
            lemma_fields_size_nonneg(fields, n);
            lemma_value_size_positive(val);
            assert(len_byte(kb.len()) as nat == kb.len());
        }
        assert(parse_inline_value(s, p + 1 + kb.len()) == Ok::<(Json, nat), InlineFault>((val, 2 + next.len()))) by {
            lemma_field_size_within(fields, n, k as int);
            lemma_fields_size_nonneg(fields, n);
            assert(!is_nested(fields[k as int].1));
            assert(json_wf(fields[k as int].1));
            lemma_parse_inline_value(val, s, p + 1 + kb.len());
        }
        let acc = fields.subrange(0, k as int);
        lemma_inline_field_step(s, p, key, val, 2 + next.len(), (n - k - 1) as nat, acc);
        assert((n - k - 1) as nat + 1 == (n - k) as nat);
        assert forall|j: int| 0 <= j < acc.len() implies #[trigger] acc[j].0 != key by {
            assert(acc[j] == fields[j]);
        }
        lemma_find_key_none(acc, key, 0);
        assert(obj_insert(acc, key, val) =~= fields.subrange(0, (k + 1) as int));
        lemma_parse_inline_fields(fields, s, k + 1);
    }
}

/// Inline mode is lossless: an object that inline mode takes, whose keys are distinct and
/// whose values are in the form the format keeps, reads back as itself, all its bytes read.
pub proof fn law_inline_roundtrip(fields: Seq<(Seq<char>, Json)>)
    requires
        inline_eligible(fields),
        keys_distinct(fields),
        forall|i: int| 0 <= i < fields.len() ==> json_wf(#[trigger] fields[i].1),
    ensures
        parse_inline(inline_bytes(fields)) == Ok::<(Seq<(Seq<char>, Json)>, nat), InlineFault>(
            (fields, inline_bytes(fields).len())),
        inline_bytes(fields).len() == inline_size(fields) <= INLINE_THRESHOLD,
{
    let s = inline_bytes(fields);
    lemma_fields_bytes_len(fields, fields.len());
    assert(fields.subrange(0, 0) =~= Seq::<(Seq<char>, Json)>::empty());
    assert(inline_fields_bytes(fields, 0) =~= Seq::<u8>::empty());
    assert(s[0] == INLINE_MAGIC);
    assert(s[1] as nat == fields.len());
    lemma_parse_inline_fields(fields, s, 0);
}

} // verus!
