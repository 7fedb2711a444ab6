//! Training hyperparameters and their encoding.
use vstd::prelude::*;
use vstd::utf8::{encode_utf8, decode_utf8, valid_utf8, encode_utf8_valid_utf8, encode_utf8_decode_utf8};
use vstd::bytes::{spec_u32_to_le_bytes, spec_u32_from_le_bytes, spec_u64_to_le_bytes, spec_u64_from_le_bytes,
    lemma_auto_spec_u32_to_from_le_bytes, lemma_auto_spec_u64_to_from_le_bytes};
use crate::error::FluxPackError;
use crate::json::{Json, JsonNumber, JsonValue, fields_view};
use crate::varint::{encode_varint, decode_varint_at, encode_signed_varint, decode_signed_varint_at, varint_bytes,
    varint_parse, signed_varint_bytes, signed_varint_parse, lemma_signed_varint_roundtrip};
use crate::wire::{push_bytes, str_bytes, remaining, f64_finite, f64_bits_finite, float_value, read_u64_le};
use crate::columnar::{number_f64_bits, number_to_f64_bits};
use crate::outside::utf8_str;
use crate::roundtrip::{holds_at, lemma_holds_split, lemma_holds_skip, lemma_varint_at};

verus! {

/// Training hyperparameters.
pub struct Hyperparams {
    /// The learning rate, a single held by its IEEE-754 bits.
    pub learning_rate: u32,
    pub batch_size: u32,
    pub epochs: u32,
    pub optimizer: Option<String>,
    pub custom: Vec<(String, JsonValue)>,
}

/// The mathematical model of hyperparameters.
pub ghost struct HyperModel {
    pub lr: u32,
    pub batch: u32,
    pub epochs: u32,
    pub optimizer: Option<Seq<char>>,
    pub custom: Seq<(Seq<char>, Json)>,
}

impl View for Hyperparams {
    type V = HyperModel;

    open spec fn view(&self) -> HyperModel {
        HyperModel {
            lr: self.learning_rate,
            batch: self.batch_size,
            epochs: self.epochs,
            optimizer: match self.optimizer {
                Some(name) => Some(name@),
                None => None,
            },
            custom: fields_view(self.custom@),
        }
    }
}

/// A flat value's bytes: null, booleans, an integer as a ZigZag varint, any other number as
/// the little-endian bits of its double, a string; anything else as null.
pub open spec fn flat_value_bytes(v: Json) -> Seq<u8> {
    match v {
        Json::Null => seq![0x00u8],
        Json::Bool(b) => if b { seq![0x01u8] } else { seq![0x02u8] },
        Json::Num(JsonNumber::Int(i)) => seq![0x03u8] + signed_varint_bytes(i),
        Json::Num(n) => seq![0x06u8] + spec_u64_to_le_bytes(number_f64_bits(n)),
        Json::Str(st) => seq![0x05u8] + str_bytes(st),
        _ => seq![0x00u8],
    }
}

/// The first `n` custom entries: key (length and bytes), then flat value.
pub open spec fn custom_bytes(custom: Seq<(Seq<char>, Json)>, n: nat) -> Seq<u8>
    decreases n,
{
    if n == 0 || n > custom.len() {
        Seq::empty()
    } else {
        custom_bytes(custom, (n - 1) as nat) + str_bytes(custom[n - 1].0) + flat_value_bytes(custom[n - 1].1)
    }
}

/// Hyperparameters' bytes: learning-rate bits (4, little-endian), batch size and epochs as
/// varints, an optimizer flag (1 then its name, or 0), the number of custom entries and
/// the entries.
pub open spec fn hyper_bytes(m: HyperModel) -> Seq<u8> {
    spec_u32_to_le_bytes(m.lr) + varint_bytes(m.batch as u64) + varint_bytes(m.epochs as u64)
        + match m.optimizer {
            Some(name) => seq![1u8] + str_bytes(name),
            None => seq![0u8],
        }
        + varint_bytes(m.custom.len() as u64) + custom_bytes(m.custom, m.custom.len())
}

/// Reading a flat value at `pos`: the value and how many bytes it took.
pub open spec fn parse_flat_value(s: Seq<u8>, pos: nat) -> Result<(Json, nat), FluxPackError> {
    if pos >= s.len() {
        Err(FluxPackError::BufferOverrun)
    } else {
        let tag = s[pos as int];
        let body = pos + 1;
        if tag == 0x00 {
            Ok((Json::Null, 1))
        } else if tag == 0x01 {
            Ok((Json::Bool(true), 1))
        } else if tag == 0x02 {
            Ok((Json::Bool(false), 1))
        } else if tag == 0x03 {
            match signed_varint_parse(s.skip(body as int)) {
                Ok((i, c)) => Ok((Json::Num(JsonNumber::Int(i)), 1 + c)),
                Err(e) => Err(e),
            }
        } else if tag == 0x05 {
            match varint_parse(s.skip(body as int)) {
                Ok((len, c)) => {
                    let start = body + c;
                    if len > remaining(s, start) {
                        Err(FluxPackError::BufferOverrun)
                    } else if !valid_utf8(s.subrange(start as int, start + len)) {
                        Err(FluxPackError::InvalidUtf8)
                    } else {
                        Ok((Json::Str(decode_utf8(s.subrange(start as int, start + len))), (1 + c + len) as nat))
                    }
                },
                Err(e) => Err(e),
            }
        } else if tag == 0x06 {
            if remaining(s, body) < 8 {
                Err(FluxPackError::BufferOverrun)
            } else {
                Ok((float_value(spec_u64_from_le_bytes(s.subrange(body as int, (body + 8) as int))), 9))
            }
        } else {
            Err(FluxPackError::InvalidValueType(tag))
        }
    }
}

/// Reading a length-prefixed UTF-8 string at `pos`: the string and where it ends.
pub open spec fn parse_str_at(s: Seq<u8>, pos: nat) -> Result<(Seq<char>, nat), FluxPackError> {
    match varint_parse(s.skip(pos as int)) {
        Ok((len, c)) => {
            let start = pos + c;
            if len > remaining(s, start) {
                Err(FluxPackError::BufferOverrun)
            } else if !valid_utf8(s.subrange(start as int, start + len)) {
                Err(FluxPackError::InvalidUtf8)
            } else {
                Ok((decode_utf8(s.subrange(start as int, start + len)), (start + len) as nat))
            }
        },
        Err(e) => Err(e),
    }
}

/// Reading `n` more custom entries from `pos` after `acc`: the entries and where they end.
pub open spec fn parse_custom(s: Seq<u8>, pos: nat, n: nat, acc: Seq<(Seq<char>, Json)>)
    -> Result<(Seq<(Seq<char>, Json)>, nat), FluxPackError>
    decreases n,
{
    if n == 0 {
        Ok((acc, pos))
    } else {
        match parse_str_at(s, pos) {
            Ok((key, p)) => match parse_flat_value(s, p) {
                Ok((v, c)) => parse_custom(s, p + c, (n - 1) as nat, acc.push((key, v))),
                Err(e) => Err(e),
            },
            Err(e) => Err(e),
        }
    }
}

/// Reading the optimizer part at `p`: a flag byte, 1 followed by the name, anything else
/// for none. The optimizer and where the part ends.
pub open spec fn parse_optimizer(s: Seq<u8>, p: nat) -> Result<(Option<Seq<char>>, nat), FluxPackError> {
    if p >= s.len() {
        Err(FluxPackError::BufferOverrun)
    } else if s[p as int] == 1 {
        match parse_str_at(s, p + 1) {
            Ok((name, q)) => Ok((Some(name), q)),
            Err(e) => Err(e),
        }
    } else {
        Ok((None, p + 1))
    }
}

/// Reading the custom entries at `q`: their count, then the entries. The entries and
/// where they end.
pub open spec fn parse_custom_block(s: Seq<u8>, q: nat) -> Result<(Seq<(Seq<char>, Json)>, nat), FluxPackError> {
    match varint_parse(s.skip(q as int)) {
        Ok((n, c)) => parse_custom(s, q + c, n as nat, Seq::empty()),
        Err(e) => Err(e),
    }
}

/// Reading hyperparameters: the parameters and how many bytes they took (batch size and
/// epochs keep the low 32 bits of their varints).
pub open spec fn parse_hyper(s: Seq<u8>) -> Result<(HyperModel, nat), FluxPackError> {
    if s.len() < 4 {
        Err(FluxPackError::BufferOverrun)
    } else {
        match varint_parse(s.skip(4)) {
            Err(e) => Err(e),
            Ok((b, c1)) => match varint_parse(s.skip((4 + c1) as int)) {
                Err(e) => Err(e),
                Ok((ep, c2)) => match parse_optimizer(s, 4 + c1 + c2) {
                    Err(e) => Err(e),
                    Ok((optimizer, q)) => match parse_custom_block(s, q) {
                        Err(e) => Err(e),
                        Ok((custom, end)) => Ok((
                            HyperModel {
                                lr: spec_u32_from_le_bytes(s.subrange(0, 4)),
                                batch: #[verifier::truncate] (b as u32),
                                epochs: #[verifier::truncate] (ep as u32),
                                optimizer,
                                custom,
                            },
                            end,
                        )),
                    },
                },
            },
        }
    }
}

/// Appends a flat value.
fn encode_value_flat(value: &JsonValue, buffer: &mut Vec<u8>)
    ensures
        final(buffer)@ == old(buffer)@ + flat_value_bytes(value@),
{
    match value {
        JsonValue::Null => buffer.push(0x00),
        JsonValue::Bool(b) => {
            if *b {
                buffer.push(0x01);
            } else {
                buffer.push(0x02);
            }
        },
        JsonValue::Number(n) => match n {
            JsonNumber::Int(i) => {
                buffer.push(0x03);
                encode_signed_varint(*i, buffer);
            },
            _ => {
                buffer.push(0x06);
                let le = vstd::bytes::u64_to_le_bytes(number_to_f64_bits(*n));
                push_bytes(buffer, le.as_slice());
            },
        },
        JsonValue::String(st) => {
            buffer.push(0x05);
            let bytes = st.as_str().as_bytes();
            encode_varint(bytes.len() as u64, buffer);
            push_bytes(buffer, bytes);
        },
        JsonValue::Array(_) => buffer.push(0x00),
        JsonValue::Object(_) => buffer.push(0x00),
    }
    assert(final(buffer)@ =~= old(buffer)@ + flat_value_bytes(value@));
}

/// Appends a length-prefixed UTF-8 string.
fn push_str_bytes(st: &str, buffer: &mut Vec<u8>)
    ensures
        final(buffer)@ == old(buffer)@ + str_bytes(st@),
{
    let bytes = st.as_bytes();
    encode_varint(bytes.len() as u64, buffer);
    push_bytes(buffer, bytes);
    assert(final(buffer)@ =~= old(buffer)@ + str_bytes(st@));
}

/// Encode hyperparameters into a buffer.
pub fn encode_hyperparams(params: &Hyperparams, buffer: &mut Vec<u8>)
    ensures
        final(buffer)@ == old(buffer)@ + hyper_bytes(params@),
{
    let le = vstd::bytes::u32_to_le_bytes(params.learning_rate);
    push_bytes(buffer, le.as_slice());
    encode_varint(params.batch_size as u64, buffer);
    encode_varint(params.epochs as u64, buffer);
    match &params.optimizer {
        Some(name) => {
            buffer.push(1);
            push_str_bytes(name.as_str(), buffer);
        },
        None => buffer.push(0),
    }
    let ghost before_custom = buffer@;
    encode_varint(params.custom.len() as u64, buffer);
    let ghost start = buffer@;
    let ghost cv = fields_view(params.custom@);
    let mut i: usize = 0;
    while i < params.custom.len()
        invariant
            i <= params.custom@.len(),
            cv == fields_view(params.custom@),
            buffer@ == start + custom_bytes(cv, i as nat),
        decreases params.custom.len() - i,
    {
        let (key, value) = &params.custom[i];
        assert(cv[i as int] == (key@, value@));
        push_str_bytes(key.as_str(), buffer);
        encode_value_flat(value, buffer);
        i = i + 1;
        assert(buffer@ =~= start + custom_bytes(cv, i as nat));
    }
    assert(final(buffer)@ =~= old(buffer)@ + hyper_bytes(params@));
}

/// Decodes a flat value at `pos`; returns it and the bytes it took.
fn decode_value_flat(input: &[u8], pos: usize) -> (r: Result<(JsonValue, usize), FluxPackError>)
    requires
        pos <= input@.len(),
    ensures
        match r {
            Ok((v, c)) => parse_flat_value(input@, pos as nat) == Ok::<(Json, nat), FluxPackError>((v@, c as nat))
                && pos + c <= input@.len(),
            Err(e) => parse_flat_value(input@, pos as nat) == Err::<(Json, nat), FluxPackError>(e),
        },
{
    let ilen = input.len();
    if pos >= ilen {
        return Err(FluxPackError::BufferOverrun);
    }
    let tag = input[pos];
    let body = pos + 1;
    if tag == 0x00 {
        Ok((JsonValue::Null, 1))
    } else if tag == 0x01 {
        Ok((JsonValue::Bool(true), 1))
    } else if tag == 0x02 {
        Ok((JsonValue::Bool(false), 1))
    } else if tag == 0x03 {
        match decode_signed_varint_at(input, body) {
            Ok((i, c)) => Ok((JsonValue::Number(JsonNumber::Int(i)), 1 + c)),
            Err(e) => Err(e),
        }
    } else if tag == 0x05 {
        match decode_varint_at(input, body) {
            Ok((len, c)) => {
                let start = body + c;
                if len > (ilen - start) as u64 {
                    return Err(FluxPackError::BufferOverrun);
                }
                let end = start + len as usize;
                match utf8_str(input, start, end) {
                    Ok(st) => Ok((JsonValue::String(st.to_owned()), end - pos)),
                    Err(_) => Err(FluxPackError::InvalidUtf8),
                }
            },
            Err(e) => Err(e),
        }
    } else if tag == 0x06 {
        if ilen - body < 8 {
            return Err(FluxPackError::BufferOverrun);
        }
        let bits = read_u64_le(input, body);
        if f64_finite(bits) {
            Ok((JsonValue::Number(JsonNumber::Float(bits)), 9))
        } else {
            Ok((JsonValue::Null, 9))
        }
    } else {
        Err(FluxPackError::InvalidValueType(tag))
    }
}

/// Reads a length-prefixed UTF-8 string at `pos`; returns it and where it ends.
fn read_str_at(input: &[u8], pos: usize) -> (r: Result<(String, usize), FluxPackError>)
    requires
        pos <= input@.len(),
    ensures
        match r {
            Ok((st, end)) => parse_str_at(input@, pos as nat) == Ok::<(Seq<char>, nat), FluxPackError>((st@, end as nat))
                && end <= input@.len(),
            Err(e) => parse_str_at(input@, pos as nat) == Err::<(Seq<char>, nat), FluxPackError>(e),
        },
{
    let ilen = input.len();
    let (len, c) = match decode_varint_at(input, pos) {
        Ok(x) => x,
        Err(e) => {
            return Err(e);
        },
    };
    let start = pos + c;
    if len > (ilen - start) as u64 {
        return Err(FluxPackError::BufferOverrun);
    }
    let end = start + len as usize;
    match utf8_str(input, start, end) {
        Ok(st) => Ok((st.to_owned(), end)),
        Err(_) => Err(FluxPackError::InvalidUtf8),
    }
}

/// Decodes `count` custom entries from `pos`; returns them and where they end.
fn decode_custom(input: &[u8], pos: usize, count: u64) -> (r: Result<(Vec<(String, JsonValue)>, usize), FluxPackError>)
    requires
        pos <= input@.len(),
    ensures
        match r {
            Ok((custom, end)) => parse_custom(input@, pos as nat, count as nat, Seq::empty())
                == Ok::<(Seq<(Seq<char>, Json)>, nat), FluxPackError>((fields_view(custom@), end as nat))
                && end <= input@.len(),
            Err(e) => parse_custom(input@, pos as nat, count as nat, Seq::empty())
                == Err::<(Seq<(Seq<char>, Json)>, nat), FluxPackError>(e),
        },
{
    let ilen = input.len();
    let mut cursor = pos;
    let mut custom: Vec<(String, JsonValue)> = Vec::new();
    let mut left = count;
    assert(fields_view(custom@) =~= Seq::<(Seq<char>, Json)>::empty());
    while left > 0
        invariant
            ilen == input@.len(),
            cursor <= ilen,
            parse_custom(input@, pos as nat, count as nat, Seq::empty())
                == parse_custom(input@, cursor as nat, left as nat, fields_view(custom@)),
        decreases left,
    {
        let (key, p2) = match read_str_at(input, cursor) {
            Ok(x) => x,
            Err(e) => {
                return Err(e);
            },
        };
        let (value, c) = match decode_value_flat(input, p2) {
            Ok(x) => x,
            Err(e) => {
                return Err(e);
            },
        };
        let ghost before = custom@;
        custom.push((key, value));
        assert(fields_view(custom@) =~= fields_view(before).push((key@, value@)));
        cursor = p2 + c;
        left = left - 1;
    }
    Ok((custom, cursor))
}

/// Decode hyperparameters from a buffer; returns them and the bytes they took.
pub fn decode_hyperparams(input: &[u8]) -> (r: Result<(Hyperparams, usize), FluxPackError>)
    ensures
        match parse_hyper(input@) {
            Ok((m, n)) => r matches Ok((h, c)) && h@ == m && c == n,
            Err(e) => r matches Err(x) && x == e,
        },
{
    let ilen = input.len();
    if ilen < 4 {
        return Err(FluxPackError::BufferOverrun);
    }
    let learning_rate = vstd::bytes::u32_from_le_bytes(vstd::slice::slice_subrange(input, 0, 4));
    let (batch_size, c1) = match decode_varint_at(input, 4) {
        Ok(x) => x,
        Err(e) => {
            return Err(e);
        },
    };
    let (epochs, c2) = match decode_varint_at(input, 4 + c1) {
        Ok(x) => x,
        Err(e) => {
            return Err(e);
        },
    };
    let p = 4 + c1 + c2;
    if p >= ilen {
        return Err(FluxPackError::BufferOverrun);
    }
    let has_optimizer = input[p] == 1;
    let mut cursor = p + 1;
    let optimizer = if has_optimizer {
        match read_str_at(input, cursor) {
            Ok((name, end)) => {
                cursor = end;
                Some(name)
            },
            Err(e) => {
                return Err(e);
            },
        }
    } else {
        None
    };
    let ghost q = cursor;
    let (custom_count, c3) = match decode_varint_at(input, cursor) {
        Ok(x) => x,
        Err(e) => {
            return Err(e);
        },
    };
    cursor = cursor + c3;
    let (custom, end) = match decode_custom(input, cursor, custom_count) {
        Ok(x) => x,
        Err(e) => {
            return Err(e);
        },
    };
    cursor = end;
    #[verifier::truncate]
    let batch_size = batch_size as u32;
    #[verifier::truncate]
    let epochs = epochs as u32;
    let h = Hyperparams { learning_rate, batch_size, epochs, optimizer, custom };
    Ok((h, cursor))
}

/// A custom value the flat encoding carries unchanged: null, a boolean, a signed integer,
/// a finite double, or a string.
pub open spec fn flat_ok(v: Json) -> bool {
    match v {
        Json::Null => true,
        Json::Bool(_) => true,
        Json::Num(JsonNumber::Int(_)) => true,
        Json::Num(JsonNumber::Float(b)) => f64_bits_finite(b),
        Json::Str(st) => encode_utf8(st).len() <= u64::MAX,
        _ => false,
    }
}

/// Hyperparameters the encoding carries unchanged: lengths that fit in a `u64`, flat custom
/// values.
pub open spec fn hyper_ok(m: HyperModel) -> bool {
    &&& (m.optimizer matches Some(name) ==> encode_utf8(name).len() <= u64::MAX)
    &&& m.custom.len() <= u64::MAX
    &&& forall|i: int| 0 <= i < m.custom.len() ==>
            encode_utf8((#[trigger] m.custom[i]).0).len() <= u64::MAX && flat_ok(m.custom[i].1)
}

proof fn lemma_holds_byte_at(s: Seq<u8>, pos: nat, b: Seq<u8>, k: int)
    requires
        holds_at(s, pos, b),
        0 <= k < b.len(),
    ensures
        s[pos + k] == b[k],
{
    assert(s.subrange(pos as int, (pos + b.len()) as int)[k] == s[pos + k]);
}

/// A length-prefixed string reads back as itself.
proof fn lemma_parse_str_at(st: Seq<char>, s: Seq<u8>, pos: nat)
    requires
        encode_utf8(st).len() <= u64::MAX,
        holds_at(s, pos, str_bytes(st)),
    ensures
        parse_str_at(s, pos) == Ok::<(Seq<char>, nat), FluxPackError>((st, pos + str_bytes(st).len())),
{
    let u = encode_utf8(st);
    let lb = varint_bytes(u.len() as u64);
    lemma_holds_split(s, pos, lb, u);
    lemma_varint_at(s, pos, u.len() as u64);
    encode_utf8_valid_utf8(st);
    encode_utf8_decode_utf8(st);
    assert((u.len() as u64) as nat == u.len());
}

/// A flat value reads back as itself.
proof fn lemma_parse_flat(v: Json, s: Seq<u8>, pos: nat)
    requires
        flat_ok(v),
        holds_at(s, pos, flat_value_bytes(v)),
    ensures
        parse_flat_value(s, pos) == Ok::<(Json, nat), FluxPackError>((v, flat_value_bytes(v).len())),
{
    let b = flat_value_bytes(v);
    lemma_holds_byte_at(s, pos, b, 0);
    match v {
        Json::Num(JsonNumber::Int(i)) => {
            lemma_holds_split(s, pos, seq![0x03u8], signed_varint_bytes(i));
            lemma_holds_skip(s, pos + 1, signed_varint_bytes(i));
            lemma_signed_varint_roundtrip(i, s.skip((pos + 1 + signed_varint_bytes(i).len()) as int));
        },
        Json::Num(JsonNumber::Float(bits)) => {
            lemma_auto_spec_u64_to_from_le_bytes();
            lemma_holds_split(s, pos, seq![0x06u8], spec_u64_to_le_bytes(bits));
        },
        Json::Str(st) => {
            lemma_holds_split(s, pos, seq![0x05u8], str_bytes(st));
            let u = encode_utf8(st);
            let lb = varint_bytes(u.len() as u64);
            lemma_holds_split(s, pos + 1, lb, u);
            lemma_varint_at(s, pos + 1, u.len() as u64);
            encode_utf8_valid_utf8(st);
            encode_utf8_decode_utf8(st);
            assert((u.len() as u64) as nat == u.len());
        },
        _ => {},
    }
}

/// The bytes of the first `j` custom entries begin those of the first `n`.
proof fn lemma_custom_bytes_prefix(custom: Seq<(Seq<char>, Json)>, j: nat, n: nat)
    requires
        j <= n <= custom.len(),
    ensures
        custom_bytes(custom, n) =~= custom_bytes(custom, j) + custom_bytes(custom, n).skip(custom_bytes(custom, j).len() as int),
        custom_bytes(custom, j).len() <= custom_bytes(custom, n).len(),
    decreases n,
{
    if j < n {
        lemma_custom_bytes_prefix(custom, j, (n - 1) as nat);
    }
}

/// Reading the custom entries from the `k`-th on, after the first `k`, gives all of them.
proof fn lemma_parse_custom(m: HyperModel, s: Seq<u8>, p: nat, k: nat)
    requires
        k <= m.custom.len(),
        hyper_ok(m),
        holds_at(s, p, custom_bytes(m.custom, m.custom.len())),
    ensures
        parse_custom(s, p + custom_bytes(m.custom, k).len(), (m.custom.len() - k) as nat, m.custom.subrange(0, k as int))
            == Ok::<(Seq<(Seq<char>, Json)>, nat), FluxPackError>((m.custom, p + custom_bytes(m.custom, m.custom.len()).len())),
    decreases m.custom.len() - k,
{
    let c = m.custom;
    let n = c.len();
    let all = custom_bytes(c, n);
    let pre = custom_bytes(c, k);
    lemma_custom_bytes_prefix(c, k, n);
    if k == n {
        assert(c.subrange(0, k as int) =~= c);
    } else {
        let key = c[k as int].0;
        let val = c[k as int].1;
        let kb = str_bytes(key);
        let vb = flat_value_bytes(val);
        let next = custom_bytes(c, k + 1);
        assert(next == pre + kb + vb);
        lemma_custom_bytes_prefix(c, k + 1, n);
        lemma_holds_split(s, p, next, all.skip(next.len() as int));
        lemma_holds_split(s, p, pre + kb, vb);
        lemma_holds_split(s, p, pre, kb);
        assert(encode_utf8(c[k as int].0).len() <= u64::MAX && flat_ok(c[k as int].1));
        lemma_parse_str_at(key, s, p + pre.len());
        lemma_parse_flat(val, s, p + pre.len() + kb.len());
        assert(c.subrange(0, k as int).push((key, val)) =~= c.subrange(0, (k + 1) as int));
        lemma_parse_custom(m, s, p, k + 1);
    }
}

/// Law: hyperparameters read back as themselves, all their bytes read, when the encoding
/// carries them unchanged (flat custom values: null, booleans, signed integers, finite
/// doubles, strings).
pub proof fn law_hyperparams_roundtrip(m: HyperModel)
    requires
        hyper_ok(m),
    ensures
        parse_hyper(hyper_bytes(m)) == Ok::<(HyperModel, nat), FluxPackError>((m, hyper_bytes(m).len())),
{
    let s = hyper_bytes(m);
    lemma_auto_spec_u32_to_from_le_bytes();
    let lrb = spec_u32_to_le_bytes(m.lr);
    let bb = varint_bytes(m.batch as u64);
    let eb = varint_bytes(m.epochs as u64);
    let ob = match m.optimizer {
        Some(name) => seq![1u8] + str_bytes(name),
        None => seq![0u8],
    };
    let nb = varint_bytes(m.custom.len() as u64);
    let cb = custom_bytes(m.custom, m.custom.len());
    assert(s == lrb + bb + eb + ob + nb + cb);
    assert(holds_at(s, 0, s)) by {
        assert(s.subrange(0, s.len() as int) =~= s);
    }
    lemma_holds_split(s, 0, lrb + bb + eb + ob + nb, cb);
    lemma_holds_split(s, 0, lrb + bb + eb + ob, nb);
    lemma_holds_split(s, 0, lrb + bb + eb, ob);
    lemma_holds_split(s, 0, lrb + bb, eb);
    lemma_holds_split(s, 0, lrb, bb);
    assert(s.subrange(0, 4) == lrb);
    assert(varint_parse(s.skip(4)) == Ok::<(u64, nat), FluxPackError>((m.batch as u64, bb.len()))) by {
        lemma_varint_at(s, 4, m.batch as u64);
    }
    assert(varint_parse(s.skip((4 + bb.len()) as int)) == Ok::<(u64, nat), FluxPackError>((m.epochs as u64, eb.len()))) by {
        lemma_varint_at(s, 4 + bb.len(), m.epochs as u64);
    }
    let p = 4 + bb.len() + eb.len();
    let q = p + ob.len();
    assert(parse_optimizer(s, p) == Ok::<(Option<Seq<char>>, nat), FluxPackError>((m.optimizer, q as nat))) by {
        lemma_holds_byte_at(s, p, ob, 0);
        match m.optimizer {
            Some(name) => {
                lemma_holds_split(s, p, seq![1u8], str_bytes(name));
                lemma_parse_str_at(name, s, p + 1);
            },
            None => {},
        }
    }
    assert(parse_custom_block(s, q) == Ok::<(Seq<(Seq<char>, Json)>, nat), FluxPackError>((m.custom, s.len()))) by {
        lemma_varint_at(s, q, m.custom.len() as u64);
        assert((m.custom.len() as u64) as nat == m.custom.len());
        assert(m.custom.subrange(0, 0) =~= Seq::<(Seq<char>, Json)>::empty());
        assert(custom_bytes(m.custom, 0) =~= Seq::<u8>::empty());
        lemma_parse_custom(m, s, q + nb.len(), 0);
    }
    assert(((m.batch as u64) as u32) == m.batch);
    assert(((m.epochs as u64) as u32) == m.epochs);
}


} // verus!
