//! The value grammar of FluxPack DATA frames, as bytes: what the encoders write and
//! what the decoders accept.
use vstd::prelude::*;
use vstd::utf8::{encode_utf8, decode_utf8, valid_utf8};
use vstd::bytes::{spec_u64_to_le_bytes, spec_u64_from_le_bytes};
use crate::error::FluxPackError;
use crate::json::{Json, JsonNumber, JsonValue, values_view, fields_view, lemma_array_view,
    lemma_object_view, lemma_values_view_push};
use crate::outside::utf8_str;
use crate::columnar::{parse_columnar, rebuilt_array, decode_columnar, reconstruct_array};
use crate::varint::{decode_varint_at, decode_signed_varint_at};
use crate::symbol_table::{TableModel, SymbolTable, keys_in};
use crate::varint::{varint_bytes, varint_parse, signed_varint_bytes, signed_varint_parse};

verus! {

/// Whether the IEEE-754 double with these bits is finite (not an infinity or a NaN).
pub open spec fn f64_bits_finite(bits: u64) -> bool {
    (bits >> 52) & 0x7FF != 0x7FF
}

/// A JSON value that the wire format carries unchanged: integers above `i64::MAX` only
/// as `UInt`, finite doubles, objects whose keys are non-empty and distinct, and lengths
/// that fit in a `u64` (as every length in memory does).
pub open spec fn json_wf(v: Json) -> bool
    decreases v, 0nat,
{
    match v {
        Json::Num(JsonNumber::UInt(u)) => u > i64::MAX,
        Json::Num(JsonNumber::Float(b)) => f64_bits_finite(b),
        Json::Str(s) => encode_utf8(s).len() <= u64::MAX,
        Json::Arr(items) => items.len() <= u64::MAX && items_wf(items, items.len()),
        Json::Obj(fields) => fields.len() <= u64::MAX && fields_wf(fields, fields.len()) && keys_distinct(fields),
        _ => true,
    }
}

pub open spec fn items_wf(items: Seq<Json>, n: nat) -> bool
    decreases items, n,
{
    if n == 0 || n > items.len() {
        true
    } else {
        items_wf(items, (n - 1) as nat) && json_wf(items[n - 1])
    }
}

pub open spec fn fields_wf(fields: Seq<(Seq<char>, Json)>, n: nat) -> bool
    decreases fields, n,
{
    if n == 0 || n > fields.len() {
        true
    } else {
        fields_wf(fields, (n - 1) as nat) && key_wf(fields[n - 1].0) && json_wf(fields[n - 1].1)
    }
}

/// An object key the wire format carries: non-empty, its UTF-8 length fitting in a `u64`.
pub open spec fn key_wf(k: Seq<char>) -> bool {
    k.len() > 0 && encode_utf8(k).len() <= u64::MAX
}

pub open spec fn keys_distinct(fields: Seq<(Seq<char>, Json)>) -> bool {
    forall|i: int, j: int| #![trigger fields[i], fields[j]]
        0 <= i < j < fields.len() ==> fields[i].0 != fields[j].0
}

/// The UTF-8 bytes of a string, after their length as a varint.
pub open spec fn str_bytes(s: Seq<char>) -> Seq<u8> {
    varint_bytes(encode_utf8(s).len() as u64) + encode_utf8(s)
}

/// A number as the standard encoder writes it (`zigzag` off writes an `Int` as the
/// varint of its two's complement bits).
pub open spec fn number_bytes(n: JsonNumber, zigzag: bool) -> Seq<u8> {
    match n {
        JsonNumber::Int(i) => seq![0x03u8] + if zigzag {
            signed_varint_bytes(i)
        } else {
            varint_bytes(i as u64)
        },
        JsonNumber::UInt(u) => seq![0x04u8] + varint_bytes(u),
        JsonNumber::Float(b) => seq![0x06u8] + spec_u64_to_le_bytes(b),
    }
}

/// A value as the standard encoder writes it, object keys by their tokens in `index`.
pub open spec fn value_bytes(v: Json, index: Map<Seq<char>, u16>, zigzag: bool) -> Seq<u8>
    decreases v, 0nat,
{
    match v {
        Json::Null => seq![0x00u8],
        Json::Bool(b) => if b { seq![0x01u8] } else { seq![0x02u8] },
        Json::Num(n) => number_bytes(n, zigzag),
        Json::Str(s) => seq![0x05u8] + str_bytes(s),
        Json::Arr(items) => seq![0x09u8] + varint_bytes(items.len() as u64)
            + items_bytes(items, items.len(), index, zigzag),
        Json::Obj(fields) => seq![0x0Au8] + varint_bytes(fields.len() as u64)
            + fields_bytes(fields, fields.len(), index, zigzag),
    }
}

/// The first `n` items, one after the other.
pub open spec fn items_bytes(items: Seq<Json>, n: nat, index: Map<Seq<char>, u16>, zigzag: bool) -> Seq<u8>
    decreases items, n,
{
    if n == 0 || n > items.len() {
        Seq::empty()
    } else {
        items_bytes(items, (n - 1) as nat, index, zigzag) + value_bytes(items[n - 1], index, zigzag)
    }
}

/// The first `n` fields: each key's token as a varint, then its value.
pub open spec fn fields_bytes(
    fields: Seq<(Seq<char>, Json)>,
    n: nat,
    index: Map<Seq<char>, u16>,
    zigzag: bool,
) -> Seq<u8>
    decreases fields, n,
{
    if n == 0 || n > fields.len() {
        Seq::empty()
    } else {
        fields_bytes(fields, (n - 1) as nat, index, zigzag)
            + varint_bytes(index[fields[n - 1].0] as u64)
            + value_bytes(fields[n - 1].1, index, zigzag)
    }
}

/// Every object key in `v`, in the order the encoder interns them: a key, then the keys
/// inside its value.
pub open spec fn json_keys(v: Json) -> Seq<Seq<char>>
    decreases v, 0nat,
{
    match v {
        Json::Arr(items) => items_keys(items, items.len()),
        Json::Obj(fields) => fields_keys(fields, fields.len()),
        _ => Seq::empty(),
    }
}

pub open spec fn items_keys(items: Seq<Json>, n: nat) -> Seq<Seq<char>>
    decreases items, n,
{
    if n == 0 || n > items.len() {
        Seq::empty()
    } else {
        items_keys(items, (n - 1) as nat) + json_keys(items[n - 1])
    }
}

pub open spec fn fields_keys(fields: Seq<(Seq<char>, Json)>, n: nat) -> Seq<Seq<char>>
    decreases fields, n,
{
    if n == 0 || n > fields.len() {
        Seq::empty()
    } else {
        fields_keys(fields, (n - 1) as nat) + seq![fields[n - 1].0] + json_keys(fields[n - 1].1)
    }
}

/// `Number::from(u64)`: an `Int` when it fits, else a `UInt`.
pub open spec fn number_from_u64(u: u64) -> JsonNumber {
    if u <= i64::MAX as u64 {
        JsonNumber::Int(u as i64)
    } else {
        JsonNumber::UInt(u)
    }
}

/// A double read from the wire: a number when finite, else `null`.
pub open spec fn float_value(bits: u64) -> Json {
    if f64_bits_finite(bits) {
        Json::Num(JsonNumber::Float(bits))
    } else {
        Json::Null
    }
}

/// Bytes left after position `pos`.
pub open spec fn remaining(s: Seq<u8>, pos: nat) -> nat {
    if pos <= s.len() {
        (s.len() - pos) as nat
    } else {
        0
    }
}

/// The first index of a field whose key is `k`, at or after `i`.
pub open spec fn find_key_from(fields: Seq<(Seq<char>, Json)>, k: Seq<char>, i: int) -> Option<int>
    decreases fields.len() - i,
{
    if i < 0 || i >= fields.len() {
        None
    } else if fields[i].0 == k {
        Some(i)
    } else {
        find_key_from(fields, k, i + 1)
    }
}

/// The value of the first field whose key is `k`.
pub open spec fn obj_get(fields: Seq<(Seq<char>, Json)>, k: Seq<char>) -> Option<Json> {
    match find_key_from(fields, k, 0) {
        Some(i) => Some(fields[i].1),
        None => None,
    }
}

/// Inserting into a JSON object: a key already present gets the new value in place, a
/// new key goes last.
pub open spec fn obj_insert(fields: Seq<(Seq<char>, Json)>, k: Seq<char>, v: Json) -> Seq<(Seq<char>, Json)> {
    match find_key_from(fields, k, 0) {
        Some(i) => fields.update(i, (k, v)),
        None => fields.push((k, v)),
    }
}

/// Reading one value that starts at `pos`: the value and how many bytes it took.
pub open spec fn parse_value(s: Seq<u8>, pos: nat, table: TableModel) -> Result<(Json, nat), FluxPackError>
    decreases remaining(s, pos), 0nat, 0nat,
{
    if pos >= s.len() {
        Err(FluxPackError::BufferOverrun)
    } else {
        let tag = s[pos as int];
        let body = pos + 1;
        if tag == 0x00 {
            Ok((Json::Null, 1))
        } else if tag == 0x01 {
            Ok((Json::Bool(true), 1))
        } else if tag == 0x02 {
            Ok((Json::Bool(false), 1))
        } else if tag == 0x03 {
            match signed_varint_parse(s.skip(body as int)) {
                Ok((i, c)) => Ok((Json::Num(JsonNumber::Int(i)), 1 + c)),
                Err(e) => Err(e),
            }
        } else if tag == 0x04 {
            match varint_parse(s.skip(body as int)) {
                Ok((u, c)) => Ok((Json::Num(number_from_u64(u)), 1 + c)),
                Err(e) => Err(e),
            }
        } else if tag == 0x05 {
            match varint_parse(s.skip(body as int)) {
                Ok((len, c)) => {
                    let start = body + c;
                    if len > remaining(s, start) {
                        Err(FluxPackError::BufferOverrun)
                    } else {
                        let bytes = s.subrange(start as int, start + len);
                        if !valid_utf8(bytes) {
                            Err(FluxPackError::InvalidUtf8)
                        } else {
                            Ok((Json::Str(decode_utf8(bytes)), (1 + c + len) as nat))
                        }
                    }
                },
                Err(e) => Err(e),
            }
        } else if tag == 0x06 {
            if remaining(s, body) < 8 {
                Err(FluxPackError::BufferOverrun)
            } else {
                Ok((float_value(spec_u64_from_le_bytes(s.subrange(body as int, (body + 8) as int))), 9))
            }
        } else if tag == 0x09 {
            match varint_parse(s.skip(body as int)) {
                Ok((n, c)) => match parse_items(s, body + c, n as nat, table, Seq::empty()) {
                    Ok((items, used)) => Ok((Json::Arr(items), 1 + c + used)),
                    Err(e) => Err(e),
                },
                Err(e) => Err(e),
            }
        } else if tag == 0x0A {
            match varint_parse(s.skip(body as int)) {
                Ok((n, c)) => match parse_fields(s, body + c, n as nat, table, Seq::empty()) {
                    Ok((fields, used)) => Ok((Json::Obj(fields), 1 + c + used)),
                    Err(e) => Err(e),
                },
                Err(e) => Err(e),
            }
        } else if tag == 0x0D {
            match varint_parse(s.skip(body as int)) {
                Ok((len, c)) => {
                    let start = body + c;
                    if len > remaining(s, start) {
                        Err(FluxPackError::BufferOverrun)
                    } else {
                        match parse_columnar(s.subrange(start as int, start + len)) {
                            Ok((rows, cols, _)) => Ok((rebuilt_array(rows, cols), (1 + c + len) as nat)),
                            Err(e) => Err(e),
                        }
                    }
                },
                Err(e) => Err(e),
            }
        } else {
            Err(FluxPackError::InvalidValueType(tag))
        }
    }
}

/// Reading `n` more array items from `pos`, after the items `acc` already read: all the
/// items, and how many bytes the `n` took.
pub open spec fn parse_items(s: Seq<u8>, pos: nat, n: nat, table: TableModel, acc: Seq<Json>)
    -> Result<(Seq<Json>, nat), FluxPackError>
    decreases remaining(s, pos), 1nat, n,
{
    if n == 0 {
        Ok((acc, 0))
    } else {
        match parse_value(s, pos, table) {
            Ok((v, c)) => match parse_items(s, pos + c, (n - 1) as nat, table, acc.push(v)) {
                Ok((items, used)) => Ok((items, c + used)),
                Err(e) => Err(e),
            },
            Err(e) => Err(e),
        }
    }
}

/// The token a varint names on the wire (its low 16 bits).
pub open spec fn token_of(t: u64) -> u16 {
    #[verifier::truncate]
    (t as u16)
}

/// Reading `n` more `token, value` fields from `pos` into the object `acc`: the object,
/// and how many bytes the `n` fields took.
pub open spec fn parse_fields(
    s: Seq<u8>,
    pos: nat,
    n: nat,
    table: TableModel,
    acc: Seq<(Seq<char>, Json)>,
) -> Result<(Seq<(Seq<char>, Json)>, nat), FluxPackError>
    decreases remaining(s, pos), 1nat, n,
{
    if n == 0 {
        Ok((acc, 0))
    } else {
        match varint_parse(s.skip(pos as int)) {
            Ok((t, c1)) => match table.resolve(token_of(t)) {
                Some(k) => match parse_value(s, pos + c1, table) {
                    Ok((v, c2)) => match parse_fields(s, pos + c1 + c2, (n - 1) as nat, table, obj_insert(acc, k, v)) {
                        Ok((fields, used)) => Ok((fields, c1 + c2 + used)),
                        Err(e) => Err(e),
                    },
                    Err(e) => Err(e),
                },
                None => Err(FluxPackError::UnknownToken(token_of(t))),
            },
            Err(e) => Err(e),
        }
    }
}

/// `Number::from(u64)`.
pub fn number_from_u64_exec(u: u64) -> (n: JsonNumber)
    ensures
        n == number_from_u64(u),
{
    if u <= i64::MAX as u64 {
        JsonNumber::Int(u as i64)
    } else {
        JsonNumber::UInt(u)
    }
}

/// Whether the double with these bits is finite.
pub fn f64_finite(bits: u64) -> (r: bool)
    ensures
        r == f64_bits_finite(bits),
{
    (bits >> 52) & 0x7FF != 0x7FF
}

/// The little-endian u64 at `input[pos..pos + 8]`.
pub fn read_u64_le(input: &[u8], pos: usize) -> (r: u64)
    requires
        pos + 8 <= input@.len(),
    ensures
        r == spec_u64_from_le_bytes(input@.subrange(pos as int, pos + 8)),
{
    let len = input.len();
    let part = vstd::slice::slice_subrange(input, pos, pos + 8);
    vstd::bytes::u64_from_le_bytes(part)
}

/// Appends all of `bytes` to `buffer`.
pub fn push_bytes(buffer: &mut Vec<u8>, bytes: &[u8])
    ensures
        final(buffer)@ == old(buffer)@ + bytes@,
{
    let mut i: usize = 0;
    while i < bytes.len()
        invariant
            i <= bytes@.len(),
            buffer@ == old(buffer)@ + bytes@.subrange(0, i as int),
        decreases bytes.len() - i,
    {
        buffer.push(bytes[i]);
        i = i + 1;
        assert(bytes@.subrange(0, i as int) == bytes@.subrange(0, i - 1) + seq![bytes@[i - 1]]);
    }
    assert(bytes@.subrange(0, bytes@.len() as int) == bytes@);
}

/// Inserts `k: v` into an object: a key already present gets `v` in place, a new key goes last.
pub fn object_insert(fields: &mut Vec<(String, JsonValue)>, k: String, v: JsonValue)
    ensures
        fields_view(final(fields)@) == obj_insert(fields_view(old(fields)@), k@, v@),
{
    let ghost fv = fields_view(fields@);
    let mut i: usize = 0;
    while i < fields.len()
        invariant
            i <= fields@.len(),
            fields@ == old(fields)@,
            fv == fields_view(fields@),
            find_key_from(fv, k@, 0) == find_key_from(fv, k@, i as int),
        decreases fields.len() - i,
    {
        if fields[i].0 == k {
            fields.set(i, (k, v));
            proof {
                assert(fields_view(fields@) =~= fv.update(i as int, (k@, v@)));
            }
            return;
        }
        i = i + 1;
    }
    fields.push((k, v));
    proof {
        assert(fields_view(fields@) =~= fv.push((k@, v@)));
    }
}

/// Decodes the value that starts at `pos`; returns it and the number of bytes it took.
#[verifier::rlimit(40)]
pub fn decode_value_at(input: &[u8], pos: usize, table: &SymbolTable) -> (r: Result<(JsonValue, usize), FluxPackError>)
    requires
        pos <= input@.len(),
    ensures
        match r {
            Ok((v, c)) => parse_value(input@, pos as nat, table@) == Ok::<(Json, nat), FluxPackError>((v@, c as nat))
                && pos + c <= input@.len(),
            Err(e) => parse_value(input@, pos as nat, table@) == Err::<(Json, nat), FluxPackError>(e),
        },
    decreases input@.len() - pos,
{
    let ilen = input.len();
    if pos >= ilen {
        return Err(FluxPackError::BufferOverrun);
    }
    let tag = input[pos];
    let body = pos + 1;
    if tag == 0x00 {
        Ok((JsonValue::Null, 1))
    } else if tag == 0x01 {
        Ok((JsonValue::Bool(true), 1))
    } else if tag == 0x02 {
        Ok((JsonValue::Bool(false), 1))
    } else if tag == 0x03 {
        match decode_signed_varint_at(input, body) {
            Ok((i, c)) => Ok((JsonValue::Number(JsonNumber::Int(i)), 1 + c)),
            Err(e) => Err(e),
        }
    } else if tag == 0x04 {
        match decode_varint_at(input, body) {
            Ok((u, c)) => Ok((JsonValue::Number(number_from_u64_exec(u)), 1 + c)),
            Err(e) => Err(e),
        }
    } else if tag == 0x05 {
        match decode_varint_at(input, body) {
            Ok((len, c)) => {
                let start = body + c;
                if len > (input.len() - start) as u64 {
                    return Err(FluxPackError::BufferOverrun);
                }
                let end = start + len as usize;
                match utf8_str(input, start, end) {
                    Ok(st) => Ok((JsonValue::String(st.to_owned()), end - pos)),
                    Err(_) => Err(FluxPackError::InvalidUtf8),
                }
            },
            Err(e) => Err(e),
        }
    } else if tag == 0x06 {
        if input.len() - body < 8 {
            return Err(FluxPackError::BufferOverrun);
        }
        let bits = read_u64_le(input, body);
        if f64_finite(bits) {
            Ok((JsonValue::Number(JsonNumber::Float(bits)), 9))
        } else {
            Ok((JsonValue::Null, 9))
        }
    } else if tag == 0x09 {
        match decode_varint_at(input, body) {
            Ok((n, c)) => {
                let first = body + c;
                let mut items: Vec<JsonValue> = Vec::new();
                let mut cur = first;
                let mut left = n;
                assert(values_view(items@) =~= Seq::<Json>::empty());
                while left > 0
                    invariant
                        pos < first <= cur <= input@.len(),
                        ilen == input@.len(),
                        first == pos + 1 + c,
                        parse_value(input@, pos as nat, table@) == match parse_items(input@, first as nat, n as nat, table@, Seq::empty()) {
                            Ok((all, used)) => Ok::<(Json, nat), FluxPackError>((Json::Arr(all), (1 + c + used) as nat)),
                            Err(e) => Err(e),
                        },
                        parse_items(input@, first as nat, n as nat, table@, Seq::empty()) == match parse_items(
                            input@, cur as nat, left as nat, table@, values_view(items@)) {
                            Ok((all, used)) => Ok::<(Seq<Json>, nat), FluxPackError>((all, (used + (cur - first)) as nat)),
                            Err(e) => Err(e),
                        },
                    decreases left,
                {
                    match decode_value_at(input, cur, table) {
                        Ok((v, cc)) => {
                            proof {
                                lemma_values_view_push(items@, v);
                            }
                            items.push(v);
                            cur = cur + cc;
                            left = left - 1;
                        },
                        Err(e) => {
                            assert(parse_items(input@, cur as nat, left as nat, table@, values_view(items@)) == Err::<(Seq<Json>, nat), FluxPackError>(e));
                            return Err(e);
                        },
                    }
                }
                proof {
                    lemma_array_view(items);
                }
                Ok((JsonValue::Array(items), cur - pos))
            },
            Err(e) => Err(e),
        }
    } else if tag == 0x0A {
        match decode_varint_at(input, body) {
            Ok((n, c)) => {
                let first = body + c;
                let mut fields: Vec<(String, JsonValue)> = Vec::new();
                let mut cur = first;
                let mut left = n;
                assert(fields_view(fields@) =~= Seq::<(Seq<char>, Json)>::empty());
                while left > 0
                    invariant
                        pos < first <= cur <= input@.len(),
                        ilen == input@.len(),
                        first == pos + 1 + c,
                        parse_value(input@, pos as nat, table@) == match parse_fields(input@, first as nat, n as nat, table@, Seq::empty()) {
                            Ok((all, used)) => Ok::<(Json, nat), FluxPackError>((Json::Obj(all), (1 + c + used) as nat)),
                            Err(e) => Err(e),
                        },
                        parse_fields(input@, first as nat, n as nat, table@, Seq::empty()) == match parse_fields(
                            input@, cur as nat, left as nat, table@, fields_view(fields@)) {
                            Ok((all, used)) => Ok::<(Seq<(Seq<char>, Json)>, nat), FluxPackError>((all, (used + (cur - first)) as nat)),
                            Err(e) => Err(e),
                        },
                    decreases left,
                {
                    let ghost fv = fields_view(fields@);
                    let (t, c1) = match decode_varint_at(input, cur) {
                        Ok(x) => x,
                        Err(e) => {
                            assert(parse_fields(input@, cur as nat, left as nat, table@, fv) == Err::<(Seq<(Seq<char>, Json)>, nat), FluxPackError>(e));
                            return Err(e);
                        },
                    };
                    #[verifier::truncate]
                    let token = t as u16;
                    let key = match table.resolve(token) {
                        Some(k) => k.to_owned(),
                        None => {
                            assert(parse_fields(input@, cur as nat, left as nat, table@, fv) == Err::<(Seq<(Seq<char>, Json)>, nat), FluxPackError>(FluxPackError::UnknownToken(token)));
                            return Err(FluxPackError::UnknownToken(token));
                        },
                    };
                    match decode_value_at(input, cur + c1, table) {
                        Ok((v, c2)) => {
                            object_insert(&mut fields, key, v);
                            cur = cur + c1 + c2;
                            left = left - 1;
                        },
                        Err(e) => {
                            assert(parse_fields(input@, cur as nat, left as nat, table@, fv) == Err::<(Seq<(Seq<char>, Json)>, nat), FluxPackError>(e));
                            return Err(e);
                        },
                    }
                }
                proof {
                    lemma_object_view(fields);
                }
                Ok((JsonValue::Object(fields), cur - pos))
            },
            Err(e) => Err(e),
        }
    } else if tag == 0x0D {
        match decode_varint_at(input, body) {
            Ok((len, c)) => {
                let start = body + c;
                if len > (input.len() - start) as u64 {
                    return Err(FluxPackError::BufferOverrun);
                }
                let end = start + len as usize;
                let part = vstd::slice::slice_subrange(input, start, end);
                match decode_columnar(part) {
                    Ok((rows, cols, _)) => Ok((reconstruct_array(rows, cols), end - pos)),
                    Err(e) => Err(e),
                }
            },
            Err(e) => Err(e),
        }
    } else {
        Err(FluxPackError::InvalidValueType(tag))
    }
}

/// A DATA frame's body at `pos`: a field count, then that many `token, value` fields.
/// The object and how many bytes it took.
pub open spec fn parse_data_frame(s: Seq<u8>, pos: nat, table: TableModel) -> Result<(Json, nat), FluxPackError> {
    match varint_parse(s.skip(pos as int)) {
        Ok((n, c)) => match parse_fields(s, pos + c, n as nat, table, Seq::empty()) {
            Ok((fields, used)) => Ok((Json::Obj(fields), c + used)),
            Err(e) => Err(e),
        },
        Err(e) => Err(e),
    }
}

/// A DEF frame's body at `pos`: token varint, key length varint, key bytes (UTF-8).
/// The token as read, the key, and how many bytes it took.
pub open spec fn parse_def(s: Seq<u8>, pos: nat) -> Result<(u64, Seq<char>, nat), FluxPackError> {
    match varint_parse(s.skip(pos as int)) {
        Ok((t, c1)) => match varint_parse(s.skip((pos + c1) as int)) {
            Ok((len, c2)) => {
                let start = pos + c1 + c2;
                if len > remaining(s, start) {
                    Err(FluxPackError::BufferOverrun)
                } else {
                    let bytes = s.subrange(start as int, start + len);
                    if !valid_utf8(bytes) {
                        Err(FluxPackError::InvalidUtf8)
                    } else {
                        Ok((t, decode_utf8(bytes), (c1 + c2 + len) as nat))
                    }
                }
            },
            Err(e) => Err(e),
        },
        Err(e) => Err(e),
    }
}

/// Decodes a DATA frame's body at `pos`; returns the object and the bytes it took.
pub fn decode_data_frame_at(input: &[u8], pos: usize, table: &SymbolTable) -> (r: Result<(JsonValue, usize), FluxPackError>)
    requires
        pos <= input@.len(),
    ensures
        match r {
            Ok((v, c)) => parse_data_frame(input@, pos as nat, table@) == Ok::<(Json, nat), FluxPackError>((v@, c as nat))
                && pos + c <= input@.len(),
            Err(e) => parse_data_frame(input@, pos as nat, table@) == Err::<(Json, nat), FluxPackError>(e),
        },
{
    let ilen = input.len();
    let (n, c) = match decode_varint_at(input, pos) {
        Ok(x) => x,
        Err(e) => {
            return Err(e);
        },
    };
    let first = pos + c;
    let mut fields: Vec<(String, JsonValue)> = Vec::new();
    let mut cur = first;
    let mut left = n;
    assert(fields_view(fields@) =~= Seq::<(Seq<char>, Json)>::empty());
    while left > 0
        invariant
            pos <= first <= cur <= input@.len(),
            ilen == input@.len(),
            first == pos + c,
            parse_data_frame(input@, pos as nat, table@) == match parse_fields(input@, first as nat, n as nat, table@, Seq::empty()) {
                Ok((all, used)) => Ok::<(Json, nat), FluxPackError>((Json::Obj(all), (c + used) as nat)),
                Err(e) => Err(e),
            },
            parse_fields(input@, first as nat, n as nat, table@, Seq::empty()) == match parse_fields(
                input@, cur as nat, left as nat, table@, fields_view(fields@)) {
                Ok((all, used)) => Ok::<(Seq<(Seq<char>, Json)>, nat), FluxPackError>((all, (used + (cur - first)) as nat)),
                Err(e) => Err(e),
            },
        decreases left,
    {
        let ghost fv = fields_view(fields@);
        let (t, c1) = match decode_varint_at(input, cur) {
            Ok(x) => x,
            Err(e) => {
                assert(parse_fields(input@, cur as nat, left as nat, table@, fv) == Err::<(Seq<(Seq<char>, Json)>, nat), FluxPackError>(e));
                return Err(e);
            },
        };
        #[verifier::truncate]
        let token = t as u16;
        let key = match table.resolve(token) {
            Some(k) => k.to_owned(),
            None => {
                assert(parse_fields(input@, cur as nat, left as nat, table@, fv) == Err::<(Seq<(Seq<char>, Json)>, nat), FluxPackError>(FluxPackError::UnknownToken(token)));
                return Err(FluxPackError::UnknownToken(token));
            },
        };
        match decode_value_at(input, cur + c1, table) {
            Ok((v, c2)) => {
                object_insert(&mut fields, key, v);
                cur = cur + c1 + c2;
                left = left - 1;
            },
            Err(e) => {
                assert(parse_fields(input@, cur as nat, left as nat, table@, fv) == Err::<(Seq<(Seq<char>, Json)>, nat), FluxPackError>(e));
                return Err(e);
            },
        }
    }
    proof {
        lemma_object_view(fields);
    }
    Ok((JsonValue::Object(fields), cur - pos))
}

/// Reads a DEF frame's body at `pos`: the token as read, the key, the bytes it took.
pub fn read_def_at<'a>(input: &'a [u8], pos: usize) -> (r: Result<(u64, &'a str, usize), FluxPackError>)
    requires
        pos <= input@.len(),
    ensures
        match r {
            Ok((t, k, c)) => parse_def(input@, pos as nat) == Ok::<(u64, Seq<char>, nat), FluxPackError>((t, k@, c as nat))
                && pos + c <= input@.len(),
            Err(e) => parse_def(input@, pos as nat) == Err::<(u64, Seq<char>, nat), FluxPackError>(e),
        },
{
    let ilen = input.len();
    let (t, c1) = match decode_varint_at(input, pos) {
        Ok(x) => x,
        Err(e) => {
            return Err(e);
        },
    };
    let (len, c2) = match decode_varint_at(input, pos + c1) {
        Ok(x) => x,
        Err(e) => {
            return Err(e);
        },
    };
    let start = pos + c1 + c2;
    if len > (ilen - start) as u64 {
        return Err(FluxPackError::BufferOverrun);
    }
    let end = start + len as usize;
    match utf8_str(input, start, end) {
        Ok(k) => Ok((t, k, end - pos)),
        Err(_) => Err(FluxPackError::InvalidUtf8),
    }
}

/// The keys of field `j` (its own, and those inside its value) are among the keys of the
/// first `n` fields.
pub proof fn lemma_fields_keys_in(fields: Seq<(Seq<char>, Json)>, n: nat, j: int, index: Map<Seq<char>, u16>)
    requires
        0 <= j < n <= fields.len(),
        keys_in(fields_keys(fields, n), index),
    ensures
        index.dom().contains(fields[j].0),
        keys_in(json_keys(fields[j].1), index),
    decreases n,
{
    let pre = fields_keys(fields, (n - 1) as nat);
    let mid = seq![fields[n - 1].0];
    let post = json_keys(fields[n - 1].1);
    let all = fields_keys(fields, n);
    assert(all == pre + mid + post);
    if j == n - 1 {
        assert(all[pre.len() as int] == fields[j].0);
        assert forall|i: int| 0 <= i < post.len() implies index.dom().contains(#[trigger] post[i]) by {
            assert(all[pre.len() + 1 + i] == post[i]);
        }
    } else {
        assert forall|i: int| 0 <= i < pre.len() implies index.dom().contains(#[trigger] pre[i]) by {
            assert(all[i] == pre[i]);
        }
        lemma_fields_keys_in(fields, (n - 1) as nat, j, index);
    }
}

/// The keys inside item `j` are among the keys of the first `n` items.
pub proof fn lemma_items_keys_in(items: Seq<Json>, n: nat, j: int, index: Map<Seq<char>, u16>)
    requires
        0 <= j < n <= items.len(),
        keys_in(items_keys(items, n), index),
    ensures
        keys_in(json_keys(items[j]), index),
    decreases n,
{
    let pre = items_keys(items, (n - 1) as nat);
    let post = json_keys(items[n - 1]);
    let all = items_keys(items, n);
    assert(all == pre + post);
    if j == n - 1 {
        assert forall|i: int| 0 <= i < post.len() implies index.dom().contains(#[trigger] post[i]) by {
            assert(all[pre.len() + i] == post[i]);
        }
    } else {
        assert forall|i: int| 0 <= i < pre.len() implies index.dom().contains(#[trigger] pre[i]) by {
            assert(all[i] == pre[i]);
        }
        lemma_items_keys_in(items, (n - 1) as nat, j, index);
    }
}

/// A DEF frame for each `(token, key)` pair, in order.
pub open spec fn defs_bytes(pending: Seq<(u16, Seq<char>)>) -> Seq<u8>
    decreases pending.len(),
{
    if pending.len() == 0 {
        Seq::empty()
    } else {
        defs_bytes(pending.drop_last()) + seq![0x01u8] + varint_bytes(pending.last().0 as u64)
            + str_bytes(pending.last().1)
    }
}

/// A DATA frame for the object with these fields.
pub open spec fn data_frame_bytes(fields: Seq<(Seq<char>, Json)>, index: Map<Seq<char>, u16>, zigzag: bool) -> Seq<u8> {
    seq![0x02u8] + varint_bytes(fields.len() as u64) + fields_bytes(fields, fields.len(), index, zigzag)
}

/// The keys of the first `i` fields begin the keys of the first `n`.
pub proof fn lemma_fields_keys_prefix(fields: Seq<(Seq<char>, Json)>, i: nat, n: nat)
    requires
        i <= n <= fields.len(),
    ensures
        fields_keys(fields, n) =~= fields_keys(fields, i) + fields_keys(fields, n).skip(fields_keys(fields, i).len() as int),
        fields_keys(fields, i).len() <= fields_keys(fields, n).len(),
    decreases n,
{
    if i < n {
        lemma_fields_keys_prefix(fields, i, (n - 1) as nat);
    }
}

/// The keys of the first `i` items begin the keys of the first `n`.
pub proof fn lemma_items_keys_prefix(items: Seq<Json>, i: nat, n: nat)
    requires
        i <= n <= items.len(),
    ensures
        items_keys(items, n) =~= items_keys(items, i) + items_keys(items, n).skip(items_keys(items, i).len() as int),
        items_keys(items, i).len() <= items_keys(items, n).len(),
    decreases n,
{
    if i < n {
        lemma_items_keys_prefix(items, i, (n - 1) as nat);
    }
}

/// The value of the first field whose key is `k`.
pub fn object_get<'a>(fields: &'a Vec<(String, JsonValue)>, k: &String) -> (r: Option<&'a JsonValue>)
    ensures
        match obj_get(fields_view(fields@), k@) {
            Some(v) => r matches Some(x) && x@ == v,
            None => r is None,
        },
{
    let ghost fv = fields_view(fields@);
    let mut i: usize = 0;
    while i < fields.len()
        invariant
            i <= fields@.len(),
            fv == fields_view(fields@),
            find_key_from(fv, k@, 0) == find_key_from(fv, k@, i as int),
        decreases fields.len() - i,
    {
        if fields[i].0 == *k {
            return Some(&fields[i].1);
        }
        i = i + 1;
    }
    None
}

} // verus!
